use lightningllm::download::{
    content_length, parse_u64, partial_extension, refusal_message, refusal_text, Action, Download,
    Event, BUFFER_SIZE,
};

#[test]
fn complete_download_is_promoted() {
    let (mut download, action) = Download::start();
    assert_eq!(action, Action::Request);
    assert_eq!(
        download.step(Event::Responded { status: 200, total: 9000 }),
        Action::Create { total: 9000 }
    );
    assert_eq!(download.step(Event::Created), Action::Receive);
    assert_eq!(download.step(Event::Received(8192)), Action::Write(8192));
    assert_eq!(download.step(Event::Written), Action::Receive);
    assert_eq!(download.step(Event::Received(808)), Action::Write(808));
    assert_eq!(download.step(Event::Written), Action::Receive);
    assert_eq!(download.step(Event::Received(0)), Action::Promote);
    assert_eq!(download.step(Event::Promoted), Action::Finish);
}

#[test]
fn refused_download_is_discarded() {
    for status in [100, 199, 300, 404, 500, 999] {
        let (mut download, _) = Download::start();
        assert_eq!(
            download.step(Event::Responded { status, total: 0 }),
            Action::DiscardRefused { status }
        );
    }
    for status in [200, 206, 299] {
        let (mut download, _) = Download::start();
        assert_eq!(download.step(Event::Responded { status, total: 7 }), Action::Create { total: 7 });
    }
}

#[test]
fn failed_download_is_discarded() {
    let so_far = [
        Event::Responded { status: 200, total: 0 },
        Event::Created,
        Event::Received(5),
        Event::Written,
    ];
    for n in 0..5 {
        let (mut download, _) = Download::start();
        for event in &so_far[..n] {
            download.step(*event);
        }
        assert_eq!(download.step(Event::Failed), Action::DiscardFailed);
    }
}

#[test]
fn failed_promotion_is_reported() {
    let (mut download, _) = Download::start();
    download.step(Event::Responded { status: 200, total: 0 });
    download.step(Event::Created);
    assert_eq!(download.step(Event::Received(0)), Action::Promote);
    assert_eq!(download.step(Event::Failed), Action::Fail);
}

#[test]
fn refusals_name_the_status() {
    assert_eq!(refusal_message(404), "Failed to download model: HTTP 404 Not Found");
    assert_eq!(refusal_message(503), "Failed to download model: HTTP 503 Service Unavailable");
    assert_eq!(refusal_message(799), "Failed to download model: HTTP 799 <unknown status code>");
    assert_eq!(refusal_text("404 Gone away"), "Failed to download model: HTTP 404 Gone away");
    for status in 100..1000 {
        let start = format!("Failed to download model: HTTP {} ", status);
        assert!(refusal_message(status).starts_with(&start));
    }
}

#[test]
fn content_lengths() {
    assert_eq!(content_length(None), 0);
    assert_eq!(content_length(Some("12345".as_bytes())), 12345);
    assert_eq!(content_length(Some("+5".as_bytes())), 5);
    assert_eq!(content_length(Some("".as_bytes())), 0);
    assert_eq!(content_length(Some(" 5".as_bytes())), 0);
    assert_eq!(content_length(Some("5\t".as_bytes())), 0);
    assert_eq!(content_length(Some("-5".as_bytes())), 0);
    assert_eq!(content_length(Some(&[53, 0])), 0);
    assert_eq!(content_length(Some(&[53, 200])), 0);
    assert_eq!(content_length(Some(&[53, 127])), 0);
}

#[test]
fn numbers() {
    assert_eq!(parse_u64("0"), Some(0));
    assert_eq!(parse_u64("007"), Some(7));
    assert_eq!(parse_u64("18446744073709551615"), Some(u64::MAX));
    assert_eq!(parse_u64("+18446744073709551615"), Some(u64::MAX));
    assert_eq!(parse_u64("18446744073709551616"), None);
    assert_eq!(parse_u64("184467440737095516150"), None);
    assert_eq!(parse_u64("+"), None);
    assert_eq!(parse_u64("++1"), None);
    assert_eq!(parse_u64("-0"), None);
    assert_eq!(parse_u64("1_000"), None);
    assert_eq!(parse_u64("1é"), None);
    assert_eq!(parse_u64("é"), None);
    assert_eq!(parse_u64("٣"), None);
    for s in ["", "+", "12", "+12", "1+2", " 1", "x", "99999999999999999999"] {
        assert_eq!(parse_u64(s), s.parse::<u64>().ok());
    }
}

#[test]
fn every_header_byte() {
    for b in 0..=255u8 {
        let expected = if b.is_ascii_digit() { (b - 48) as u64 } else { 0 };
        assert_eq!(content_length(Some(&[b])), expected);
    }
}

#[test]
fn names_and_sizes() {
    assert_eq!(partial_extension(), "tmp");
    assert_eq!(BUFFER_SIZE, 8192);
}
