use question_base::Error;
use question_base::Question;
use question_base::QuestionBase;
use question_base::QuestionId;

/// The seed fixture used by the boundary scenarios: one record under the
/// identifier "1".
fn seeded_store() -> QuestionBase {
    let q = Question::new(
        QuestionId::parse("1").unwrap(),
        "How?",
        "Please help",
        Some(vec!["general".to_string()]),
    );
    QuestionBase::init(vec![q])
}

#[test]
fn listing_the_seed_returns_its_single_record() {
    let base = seeded_store();
    let listed = base.list();
    assert_eq!(listed.len(), 1);
    assert_eq!(listed[0].id.as_str(), "1");
    assert_eq!(listed[0].title, "How?");
    assert_eq!(listed[0].content, "Please help");
    assert_eq!(listed[0].tags, Some(vec!["general".to_string()]));
}

#[test]
fn a_window_beyond_the_single_record_is_not_found() {
    let base = seeded_store();
    let err = base.list_range(0, 5).unwrap_err();
    assert_eq!(err, Error::NotFound);
    assert_eq!(err.status_code(), 404);
}

#[test]
fn deleting_an_unknown_id_reports_question_not_found() {
    let mut base = seeded_store();
    let removed = base.delete(&QuestionId::parse("nope").unwrap());
    assert!(!removed);
    assert_eq!(base.len(), 1);
    assert_eq!(Error::NotFound.status_code(), 404);
    assert_eq!(Error::NotFound.message(), "Question not found");
}
