use question_base::params::parse_range;
use question_base::params::parse_usize;
use question_base::Error;
use question_base::Question;
use question_base::QuestionBase;
use question_base::QuestionId;

fn seeded(n: usize) -> QuestionBase {
    let mut base = QuestionBase::new();
    for k in 0..n {
        let key = format!("{}", k);
        let title = format!("title-{}", k);
        base.insert(Question::new(
            QuestionId::parse(&key).unwrap(),
            &title,
            "content",
            None,
        ));
    }
    base
}

#[test]
fn parse_usize_reads_decimal_numbers() {
    assert_eq!(parse_usize("0"), Some(0));
    assert_eq!(parse_usize("42"), Some(42));
    assert_eq!(parse_usize("007"), Some(7));
}

#[test]
fn parse_usize_rejects_non_numbers() {
    assert_eq!(parse_usize(""), None);
    assert_eq!(parse_usize("abc"), None);
    assert_eq!(parse_usize("1x"), None);
    assert_eq!(parse_usize("-1"), None);
    assert_eq!(parse_usize(" 1"), None);
    assert_eq!(parse_usize("99999999999999999999999999999999"), None);
}

#[test]
fn parse_range_reads_both_bounds() {
    assert_eq!(parse_range(true, Some("1"), Some("3")), Ok((1, 3)));
}

#[test]
fn parse_range_fails_without_parameters() {
    assert_eq!(parse_range(false, None, None), Err(Error::MissingParameters));
    assert_eq!(Error::MissingParameters.status_code(), 400);
    assert_eq!(Error::MissingParameters.message(), "Missing required parameters");
}

#[test]
fn parse_range_fails_on_a_bad_bound() {
    assert_eq!(parse_range(true, None, Some("3")), Err(Error::InvalidRange));
    assert_eq!(parse_range(true, Some("1"), None), Err(Error::InvalidRange));
    assert_eq!(parse_range(true, Some("x"), Some("3")), Err(Error::InvalidRange));
    assert_eq!(parse_range(true, Some("1"), Some("")), Err(Error::InvalidRange));
}

#[test]
fn list_range_returns_the_window() {
    let base = seeded(5);
    let window = base.list_range(1, 4).unwrap();
    assert_eq!(window.len(), 3);
    let all = base.list();
    for k in 0..3 {
        assert!(window[k].id.same_as(&all[k + 1].id));
        assert_eq!(window[k].title, all[k + 1].title);
    }
}

#[test]
fn list_range_returns_exactly_end_minus_start_records() {
    let base = seeded(6);
    for start in 0..5 {
        for end in (start + 1)..6 {
            let window = base.list_range(start, end).unwrap();
            assert_eq!(window.len(), end - start);
        }
    }
}

#[test]
fn list_range_fails_when_start_is_not_below_end() {
    let base = seeded(3);
    assert_eq!(base.list_range(2, 2).unwrap_err(), Error::InvalidRange);
    assert_eq!(base.list_range(2, 1).unwrap_err(), Error::InvalidRange);
    assert_eq!(Error::InvalidRange.status_code(), 400);
}

#[test]
fn list_range_fails_when_the_window_does_not_fit() {
    let base = seeded(3);
    assert_eq!(base.list_range(0, 4).unwrap_err(), Error::NotFound);
    assert_eq!(base.list_range(3, 5).unwrap_err(), Error::NotFound);
}

#[test]
fn paginate_answers_a_raw_query() {
    let base = seeded(4);
    let window = base.paginate(true, Some("1"), Some("3")).unwrap();
    assert_eq!(window.len(), 2);
    let all = base.list();
    assert!(window[0].id.same_as(&all[1].id));
    assert!(window[1].id.same_as(&all[2].id));
}

#[test]
fn paginate_fails_exactly_as_the_query_deserves() {
    let base = seeded(2);
    assert_eq!(base.paginate(false, None, None).unwrap_err(), Error::MissingParameters);
    assert_eq!(base.paginate(true, None, Some("2")).unwrap_err(), Error::InvalidRange);
    assert_eq!(base.paginate(true, Some("a"), Some("2")).unwrap_err(), Error::InvalidRange);
    assert_eq!(base.paginate(true, Some("1"), Some("1")).unwrap_err(), Error::InvalidRange);
    assert_eq!(base.paginate(true, Some("0"), Some("3")).unwrap_err(), Error::NotFound);
}

#[test]
fn backend_error_maps_to_server_error() {
    let err = Error::BackendError("connection lost".to_string());
    assert_eq!(err.status_code(), 500);
    assert_eq!(err.message(), "Backend error");
}
