use nextmeet::meetings::{all_meetings, next_meeting, Attendee, Meeting};

fn accepted_self() -> Vec<Attendee> {
    vec![Attendee { response_status: "accepted".to_string(), is_self: true }]
}

fn timed(start: &str, end: &str) -> (Option<nextmeet::meetings::MeetTime>, Option<nextmeet::meetings::MeetTime>) {
    (
        Some(nextmeet::meetings::MeetTime { date_time: Some(start.to_string()) }),
        Some(nextmeet::meetings::MeetTime { date_time: Some(end.to_string()) }),
    )
}

#[test]
fn get_link_gather_town() {
    let m = Meeting {
        description: Some(
            "This is on gather town! https://app.gather.town/meetings/XXXXX".to_string(),
        ),
        hangout_link: Some("https://meet.google.com/uq-q-q-q-q".to_string()),
        ..Default::default()
    };

    assert_eq!(
        m.get_link().unwrap(),
        "https://app.gather.town/meetings/XXXXX"
    );
}

#[test]
fn gets_zoom_link() {
    let m = Meeting {
        description: Some("This is on zoom! https://us02web.zoom.us/j/88888888888".to_string()),
        hangout_link: Some("https://meet.google.com/uq-q-q-q-q".to_string()),
        ..Default::default()
    };

    assert_eq!(
        m.get_link().unwrap(),
        "https://us02web.zoom.us/j/88888888888"
    );
}

#[test]
fn accepted_declined() {
    let m = Meeting {
        attendees: vec![Attendee {
            is_self: true,
            response_status: "declined".to_string(),
        }],
        ..Default::default()
    };

    assert!(!m.accepted());

    let m = Meeting {
        attendees: vec![Attendee {
            is_self: true,
            response_status: "pending".to_string(),
        }],
        ..Default::default()
    };

    assert!(!m.accepted());

    let m = Meeting {
        attendees: vec![Attendee {
            is_self: true,
            response_status: "accepted".to_string(),
        }],
        ..Default::default()
    };

    assert!(m.accepted());
}

#[test]
fn test_other_links_without_description() {
    let m = Meeting::default();
    assert_eq!(m.get_other_links().len(), 0);
}

#[test]
fn test_other_links_in_description() {
    let m = Meeting {
        description: Some(String::from(
            "Related card: <a href=\"http://some-card-link.ext\">Link content</a>",
        )),
        ..Default::default()
    };
    assert_eq!(
        m.get_other_links().first().unwrap().as_str(),
        "http://some-card-link.ext"
    );
}

#[test]
fn test_multiple_links_in_description() {
    let m = Meeting {
        description: Some(String::from(
            "Related card: <a href=\"http://some-card-link.ext\">Link content</a> and <a href=\"http://some-other-link.ext\">Other content</a>",
        )),
        ..Default::default()
    };
    let result = m.get_other_links();
    assert_eq!(result.len(), 2);
    assert_eq!(result.get(0).unwrap().as_str(), "http://some-card-link.ext");
    assert_eq!(
        result.get(1).unwrap().as_str(),
        "http://some-other-link.ext"
    );
}

#[test]
fn gather_preferred_over_zoom_and_native() {
    let m = Meeting {
        description: Some(
            "Join via https://app.gather.town/meetings/ABC and also https://zoom.us/j/123"
                .to_string(),
        ),
        hangout_link: Some("https://meet.google.com/xyz".to_string()),
        ..Default::default()
    };
    assert_eq!(m.get_link().unwrap(), "https://app.gather.town/meetings/ABC");
}

#[test]
fn url_run_ends_at_unicode_whitespace() {
    let m = Meeting {
        description: Some("zoom: https://zoom.us/j/1\u{a0}agenda".to_string()),
        ..Default::default()
    };
    assert_eq!(m.get_link().unwrap(), "https://zoom.us/j/1");
}

#[test]
fn native_link_when_description_has_no_url() {
    let m = Meeting {
        description: Some("A plain agenda with no conferencing URL".to_string()),
        hangout_link: Some("https://meet.google.com/xyz".to_string()),
        ..Default::default()
    };
    assert_eq!(m.get_link().unwrap(), "https://meet.google.com/xyz");
}

#[test]
fn no_description_and_no_native_link_gives_none() {
    let m = Meeting::default();
    assert!(m.get_link().is_none());
}

#[test]
fn auxiliary_links_keep_document_order() {
    let m = Meeting {
        description: Some("<a href=\"http://a.ext\">x</a><a href=\"http://b.ext\">y</a>".to_string()),
        ..Default::default()
    };
    assert_eq!(m.get_other_links(), vec!["http://a.ext".to_string(), "http://b.ext".to_string()]);
}

#[test]
fn two_accepted_self_entries_are_not_an_acceptance() {
    let entry = Attendee { is_self: true, response_status: "accepted".to_string() };
    let m = Meeting {
        attendees: vec![entry.clone(), entry],
        ..Default::default()
    };
    assert!(!m.accepted());
}

#[test]
fn accepted_requires_self_entry() {
    let m = Meeting {
        attendees: vec![Attendee {
            is_self: false,
            response_status: "accepted".to_string(),
        }],
        ..Default::default()
    };
    assert!(!m.accepted());

    let m = Meeting::default();
    assert!(!m.accepted());
}

#[test]
fn start_instant_reads_rfc3339() {
    let (start, end) = timed("1970-01-01T00:00:10+00:00", "1970-01-01T01:00:00+00:00");
    let m = Meeting { start, end, ..Default::default() };
    assert_eq!(m.start_instant(), Some(10));
    assert_eq!(m.end_instant(), Some(3600));

    let m = Meeting {
        start: Some(nextmeet::meetings::MeetTime { date_time: Some("not a time".to_string()) }),
        ..Default::default()
    };
    assert_eq!(m.start_instant(), None);
}

// 2024-05-01T10:00:00+00:00 is 1714557600 seconds after the epoch.
const T10: &str = "2024-05-01T10:00:00+00:00";
const T11: &str = "2024-05-01T11:00:00+00:00";
const T12: &str = "2024-05-01T12:00:00+00:00";
const T12_30: &str = "2024-05-01T12:30:00+00:00";
const T13: &str = "2024-05-01T13:00:00+00:00";
const NOW_11_30: i64 = 1714557600 + 5400;

fn linked_meeting(summary: &str, start: &str, end: &str) -> Meeting {
    let (start, end) = timed(start, end);
    Meeting {
        summary: Some(summary.to_string()),
        start,
        end,
        hangout_link: Some("https://meet.google.com/xyz".to_string()),
        attendees: accepted_self(),
        ..Default::default()
    }
}

#[test]
fn next_meeting_skips_meetings_already_over() {
    let over = linked_meeting("over", T10, T11);
    let later = linked_meeting("later", T12, T13);
    let meetings = vec![over, later];
    let next = next_meeting(&meetings, NOW_11_30).unwrap();
    assert_eq!(next.summary.as_deref(), Some("later"));
}

#[test]
fn next_meeting_uses_absolute_distance() {
    // "running" started 90 minutes ago and still runs; "soon" starts in 30
    // minutes: the nearer start instant wins even against one in the past.
    let running = linked_meeting("running", T10, T13);
    let soon = linked_meeting("soon", T12, T12_30);
    let meetings = vec![running, soon];
    let next = next_meeting(&meetings, NOW_11_30).unwrap();
    assert_eq!(next.summary.as_deref(), Some("soon"));
}

#[test]
fn next_meeting_breaks_ties_by_list_order() {
    // Both candidates start 30 minutes away from now, one behind and one
    // ahead: the earlier entry of the list is kept.
    let behind = linked_meeting("behind", T11, T13);
    let ahead = linked_meeting("ahead", T12, T13);
    let meetings = vec![behind, ahead];
    let next = next_meeting(&meetings, NOW_11_30).unwrap();
    assert_eq!(next.summary.as_deref(), Some("behind"));
}

#[test]
fn next_meeting_none_when_nothing_qualifies() {
    let unaccepted = Meeting {
        attendees: vec![],
        ..linked_meeting("unaccepted", T12, T13)
    };
    let linkless = Meeting {
        hangout_link: None,
        ..linked_meeting("linkless", T12, T13)
    };
    let startless = Meeting {
        start: None,
        ..linked_meeting("startless", T12, T13)
    };
    let meetings = vec![unaccepted, linkless, startless];
    assert!(next_meeting(&meetings, NOW_11_30).is_none());
}

#[test]
fn all_meetings_keeps_fetch_order_on_equal_starts() {
    let one = linked_meeting("one", T12, T13);
    let two = linked_meeting("two", T12, T13);
    let early = linked_meeting("early", T10, T11);
    let listing = all_meetings(vec![one, two, early]);
    let names: Vec<_> = listing.iter().map(|m| m.summary.clone().unwrap()).collect();
    assert_eq!(names, vec!["early".to_string(), "one".to_string(), "two".to_string()]);
}

#[test]
fn all_meetings_sorts_and_filters() {
    let second = linked_meeting("second", T12, T13);
    let first = linked_meeting("first", T10, T11);
    let linkless = Meeting {
        hangout_link: None,
        ..linked_meeting("linkless", T11, T12)
    };
    let listing = all_meetings(vec![second, linkless, first]);
    let names: Vec<_> = listing.iter().map(|m| m.summary.clone().unwrap()).collect();
    assert_eq!(names, vec!["first".to_string(), "second".to_string()]);
}
