use fhistory::op::{Operation, OperationHelp};

#[test]
fn command_words_name_operations() {
    assert_eq!(Operation::from_str("ack"), Some(Operation::Acknowledge));
    assert_eq!(Operation::from_str("status"), Some(Operation::Status));
    assert_eq!(Operation::from_str("verify"), Some(Operation::Verify));
    assert_eq!(Operation::from_str("index"), Some(Operation::Index));
    assert_eq!(Operation::from_str("init"), Some(Operation::Initialize));
    assert_eq!(Operation::from_str("log"), Some(Operation::History));
}

#[test]
fn other_words_name_no_operation() {
    for word in ["", "Ack", "ack ", "help", "version", "history", "initialize", "lo", "logs"] {
        assert_eq!(Operation::from_str(word), None, "{:?}", word);
    }
}

#[test]
fn every_operation_says_how_it_is_used() {
    let all = [
        (Operation::Acknowledge, "usage: fhistory ack [options] <path>\n"),
        (Operation::Status, "usage: fhistory status [options]\n"),
        (Operation::Verify, "usage: fhistory verify [options]\n"),
        (Operation::Index, "usage: fhistory index [options] <path>...\n"),
        (Operation::Initialize, "usage: fhistory init [options]\n"),
        (Operation::History, "usage: fhistory log [options]\n"),
    ];
    for (op, first_line) in all {
        let text = op.usage();
        assert!(text.starts_with(first_line), "{:?}", op);
        assert!(text.ends_with("Print this help message and exit\n"), "{:?}", op);
        assert_eq!(text, op.usage_text());
    }
}
