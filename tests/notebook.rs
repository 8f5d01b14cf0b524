use urbit_http_api::error::UrbitAPIError;
use urbit_http_api::graphstore::{module_to_mark, module_to_validator_string, Module};
use urbit_http_api::notebook::NotebookIndex;

#[test]
fn index_kinds() {
    assert!(NotebookIndex::new("/170").is_valid());
    assert!(NotebookIndex::new("/170").is_note_root());
    assert!(!NotebookIndex::new("170").is_valid());
    assert!(NotebookIndex::new("/170/1/3").is_note_revision());
    assert!(!NotebookIndex::new("/170/2/3").is_note_revision());
    assert!(NotebookIndex::new("/170/2/99").is_valid_comment_index());
    assert!(NotebookIndex::new("/170/2/99").is_comment_root());
    assert!(NotebookIndex::new("/170/2/99/4").is_comment_revision());
    assert!(!NotebookIndex::new("/170/1/99/4").is_comment_revision());
}

#[test]
fn derived_indices() {
    let i = NotebookIndex::new("/170/2/99/4");
    assert_eq!(i.note_root_index(), "/170");
    assert_eq!(i.note_content_node_index(), "/170/1");
    assert_eq!(i.note_comments_node_index(), "/170/2");
    assert_eq!(i.comment_root_index(), Ok("/170/2/99".to_string()));
    assert_eq!(i.new_comment_root_index(12345), "/170/2/12345");
    assert_eq!(i.index_tail(), "4");
    assert_eq!(i.note_revision_index(1), "/170/1/1");
    assert_eq!(i.comment_revision_index(2), Ok("/170/2/99/2".to_string()));
    assert!(matches!(
        NotebookIndex::new("/170/1/3").comment_root_index(),
        Err(UrbitAPIError::InvalidCommentGraphNodeIndex(_))
    ));
}

#[test]
fn revisions() {
    assert_eq!(NotebookIndex::new("/170/1/3").revision(), Ok(3));
    assert_eq!(NotebookIndex::new("/170/2/99/4").revision(), Ok(4));
    assert!(NotebookIndex::new("/170/1/x").revision().is_err());
    assert!(NotebookIndex::new("/170").revision().is_err());
    assert_eq!(NotebookIndex::new("/170/1/3").next_revision_index(), Ok("/170/1/4".to_string()));
    assert_eq!(NotebookIndex::new("/170/2/99/9").next_revision_index(), Ok("/170/2/99/10".to_string()));
    assert!(NotebookIndex::new("/170/1/18446744073709551615").next_revision_index().is_err());
}

#[test]
fn module_names() {
    assert_eq!(module_to_validator_string(&Module::Chat), "graph-validator-chat");
    assert_eq!(module_to_validator_string(&Module::Notebook), "graph-validator-publish");
    assert_eq!(module_to_validator_string(&Module::Collection), "graph-validator-link");
    assert_eq!(module_to_validator_string(&Module::Null), "");
    assert_eq!(module_to_mark(&Module::Chat), "chat");
    assert_eq!(module_to_mark(&Module::Notebook), "publish");
    assert_eq!(module_to_mark(&Module::Collection), "link");
    assert_eq!(module_to_mark(&Module::Null), "");
}

#[test]
fn index_errors_carry_the_index() {
    assert_eq!(
        NotebookIndex::new("/170/1/3").comment_root_index(),
        Err(UrbitAPIError::InvalidCommentGraphNodeIndex("/170/1/3".to_string()))
    );
    assert_eq!(
        NotebookIndex::new("/170/1/3").comment_revision_index(4),
        Err(UrbitAPIError::InvalidCommentGraphNodeIndex("/170/1/3".to_string()))
    );
    assert_eq!(
        NotebookIndex::new("/170/1/x").revision(),
        Err(UrbitAPIError::InvalidNoteGraphNodeIndex("/170/1/x".to_string()))
    );
    assert_eq!(
        NotebookIndex::new("/170").next_revision_index(),
        Err(UrbitAPIError::InvalidNoteGraphNodeIndex("/170".to_string()))
    );
}
