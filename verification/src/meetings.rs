//! Calendar meetings: conferencing-link extraction, acceptance, and the
//! selection of the next or of all relevant meetings.

use vstd::prelude::*;
use vstd::multiset::Multiset;
use vstd::string::StrSliceExecFns;

use crate::instant::{abs_distance, parse_rfc3339_epoch, rfc3339_instant_of, spec_abs_distance};
use crate::scan::{
    find_from, first_match, lemma_first_match_properties, lemma_quote_end_bounds,
    lemma_run_end_bounds, matches_at, quote_end, run_end, scan_quote, scan_run, to_char_vec,
};

verus! {

broadcast use vstd::seq_lib::group_to_multiset_ensures, vstd::multiset::group_multiset_axioms;

/// One attendee of a meeting: the response status reported by the provider
/// and whether the entry denotes the requesting user.
#[derive(Clone)]
pub struct Attendee {
    pub response_status: String,
    pub is_self: bool,
}

/// A timed slot of a meeting; the timestamp is absent for all-day events.
#[derive(Clone)]
pub struct MeetTime {
    pub date_time: Option<String>,
}

/// A calendar meeting as read from the provider.
#[derive(Clone)]
pub struct Meeting {
    pub summary: Option<String>,
    pub start: Option<MeetTime>,
    pub end: Option<MeetTime>,
    pub hangout_link: Option<String>,
    pub description: Option<String>,
    pub attendees: Vec<Attendee>,
}

impl Default for Meeting {
    /// A meeting with every field absent and no attendees.
    fn default() -> (m: Meeting)
        ensures
            m.summary is None,
            m.start is None,
            m.end is None,
            m.hangout_link is None,
            m.description is None,
            m.attendees@ =~= Seq::<Attendee>::empty(),
    {
        Meeting {
            summary: None,
            start: None,
            end: None,
            hangout_link: None,
            description: None,
            attendees: Vec::new(),
        }
    }
}

// ---------------------------------------------------------------------------
// Link extraction
// ---------------------------------------------------------------------------
pub open spec fn gather_pat() -> Seq<char> {
    "https://app.gather.town"@
}

pub open spec fn https_pat() -> Seq<char> {
    "https://"@
}

pub open spec fn zoom_pat() -> Seq<char> {
    "zoom.us"@
}

pub open spec fn href_pat() -> Seq<char> {
    "href=\""@
}

/// The first gather.town URL of a description: the earliest occurrence of the
/// gather.town prefix, extended to the end of its run of non-break
/// characters.
pub open spec fn gather_match(s: Seq<char>) -> Option<Seq<char>> {
    match first_match(s, gather_pat(), 0) {
        Some(i) => Some(s.subrange(i, run_end(s, i + gather_pat().len()))),
        None => None,
    }
}

/// An `https` URL starting at `i` whose run of non-break characters contains
/// `zoom.us`.
pub open spec fn zoom_match_at(s: Seq<char>, i: int) -> bool {
    &&& matches_at(s, https_pat(), i)
    &&& exists|j: int|
        i + https_pat().len() <= j <= run_end(s, i + https_pat().len()) && matches_at(
            s,
            zoom_pat(),
            j,
        )
}

/// The smallest index at or after `from` where a zoom URL starts.
pub open spec fn first_zoom(s: Seq<char>, from: int) -> Option<int>
    decreases s.len() - from,
{
    if from < 0 || from >= s.len() {
        None
    } else if zoom_match_at(s, from) {
        Some(from)
    } else {
        first_zoom(s, from + 1)
    }
}

/// The first zoom.us URL of a description, extended to the end of its run.
pub open spec fn zoom_match(s: Seq<char>) -> Option<Seq<char>> {
    match first_zoom(s, 0) {
        Some(i) => Some(s.subrange(i, run_end(s, i + https_pat().len()))),
        None => None,
    }
}

/// The link that a description yields: a gather.town URL if one occurs, else
/// a zoom.us URL if one occurs.
pub open spec fn description_link(s: Seq<char>) -> Option<Seq<char>> {
    match gather_match(s) {
        Some(l) => Some(l),
        None => zoom_match(s),
    }
}

/// The provider-native conferencing link, if any.
pub open spec fn spec_native_link(m: Meeting) -> Option<Seq<char>> {
    match m.hangout_link {
        Some(h) => Some(h@),
        None => None,
    }
}

/// The conferencing link of a meeting: a gather.town URL from the
/// description, else a zoom.us URL from the description, else the native
/// link, else none.
pub open spec fn spec_get_link(m: Meeting) -> Option<Seq<char>> {
    match m.description {
        Some(d) => match description_link(d@) {
            Some(l) => Some(l),
            None => spec_native_link(m),
        },
        None => spec_native_link(m),
    }
}

/// The lengths of the literal search patterns.
pub proof fn lemma_pat_lens()
    ensures
        gather_pat().len() == 23,
        https_pat().len() == 8,
        zoom_pat().len() == 7,
        href_pat().len() == 6,
{
    reveal_strlit("https://app.gather.town");
    reveal_strlit("https://");
    reveal_strlit("zoom.us");
    reveal_strlit("href=\"");
}

proof fn lemma_first_zoom_properties(s: Seq<char>, from: int)
    requires
        from >= 0,
    ensures
        match first_zoom(s, from) {
            Some(i) => from <= i && zoom_match_at(s, i) && forall|j: int|
                from <= j < i ==> !zoom_match_at(s, j),
            None => forall|j: int| j >= from ==> !zoom_match_at(s, j),
        },
    decreases s.len() - from,
{
    if from >= s.len() {
        assert forall|j: int| j >= from implies !zoom_match_at(s, j) by {
            if zoom_match_at(s, j) {
                lemma_pat_lens();
                assert(j + https_pat().len() <= s.len());
                assert(false);
            }
        }
    } else if zoom_match_at(s, from) {
    } else {
        lemma_first_zoom_properties(s, from + 1);
    }
}

proof fn lemma_first_zoom_skip(s: Seq<char>, a: int, b: int)
    requires
        0 <= a <= b,
        forall|j: int| a <= j < b ==> !zoom_match_at(s, j),
    ensures
        first_zoom(s, a) == first_zoom(s, b),
    decreases b - a,
{
    if a < b {
        if a >= s.len() {
            lemma_first_zoom_none_beyond(s, a);
            lemma_first_zoom_none_beyond(s, b);
        } else {
            lemma_first_zoom_skip(s, a + 1, b);
        }
    }
}

proof fn lemma_first_zoom_none_beyond(s: Seq<char>, from: int)
    requires
        from >= s.len(),
        from >= 0,
    ensures
        first_zoom(s, from) is None,
    decreases s.len() - from,
{
}

/// The first zoom URL of `v`, as its start index and run end.
fn find_zoom(v: &Vec<char>) -> (r: Option<(usize, usize)>)
    ensures
        match r {
            Some(p) => {
                &&& Some(p.0 as int) == first_zoom(v@, 0)
                &&& p.1 == run_end(v@, p.0 + https_pat().len())
                &&& p.0 <= p.1 <= v@.len()
            },
            None => first_zoom(v@, 0) is None,
        },
{
    let https = to_char_vec("https://");
    let zoomp = to_char_vec("zoom.us");
    proof {
        lemma_pat_lens();
    }
    let mut from: usize = 0;
    loop
        invariant
            https@ == https_pat(),
            zoomp@ == zoom_pat(),
            https@.len() == 8,
            zoomp@.len() == 7,
            from <= v@.len(),
            first_zoom(v@, 0) == first_zoom(v@, from as int),
        decreases v@.len() - from,
    {
        match find_from(v, &https, from) {
            None => {
                proof {
                    lemma_first_match_properties(v@, https@, from as int);
                    assert forall|j: int| j >= from implies !zoom_match_at(v@, j) by {
                        if zoom_match_at(v@, j) {
                            assert(matches_at(v@, https_pat(), j));
                            assert(false);
                        }
                    }
                    lemma_first_zoom_none_beyond(v@, v@.len() as int);
                    lemma_first_zoom_skip(v@, from as int, v@.len() as int);
                }
                return None;
            },
            Some(i) => {
                proof {
                    lemma_first_match_properties(v@, https@, from as int);
                    assert(matches_at(v@, https_pat(), i as int));
                    assert forall|j: int| from <= j < i implies !zoom_match_at(v@, j) by {
                        if zoom_match_at(v@, j) {
                            assert(matches_at(v@, https_pat(), j));
                            assert(false);
                        }
                    }
                    lemma_first_zoom_skip(v@, from as int, i as int);
                    assert(i + 8 <= v@.len());
                }
                // Pins v@.len() to a usize, bounding the index arithmetic below.
                let n = v.len();
                let base = i + https.len();
                let e = scan_run(v, base);
                let zr = find_from(v, &zoomp, base);
                proof {
                    lemma_first_match_properties(v@, zoomp@, base as int);
                }
                match zr {
                    Some(j) => {
                        if j <= e {
                            proof {
                                assert(matches_at(v@, zoom_pat(), j as int));
                                assert(base <= j <= run_end(v@, i + https_pat().len()));
                                assert(zoom_match_at(v@, i as int));
                            }
                            return Some((i, e));
                        } else {
                            proof {
                                assert forall|k: int|
                                    i + https_pat().len() <= k <= run_end(
                                        v@,
                                        i + https_pat().len(),
                                    ) implies !matches_at(v@, zoom_pat(), k) by {
                                    if matches_at(v@, zoom_pat(), k) {
                                        assert(j <= k);
                                        assert(false);
                                    }
                                }
                                assert(!zoom_match_at(v@, i as int));
                                lemma_first_zoom_skip(v@, i as int, i + 1);
                            }
                            from = i + 1;
                        }
                    },
                    None => {
                        proof {
                            assert forall|k: int|
                                i + https_pat().len() <= k <= run_end(
                                    v@,
                                    i + https_pat().len(),
                                ) implies !matches_at(v@, zoom_pat(), k) by {}
                            assert(!zoom_match_at(v@, i as int));
                            lemma_first_zoom_skip(v@, i as int, i + 1);
                        }
                        from = i + 1;
                    },
                }
            },
        }
    }
}

impl Meeting {
    /// The conferencing link of this meeting, by the priority gather.town
    /// URL, then zoom.us URL, then the native link.
    pub fn get_link(&self) -> (r: Option<String>)
        ensures
            match r {
                Some(l) => spec_get_link(*self) == Some(l@),
                None => spec_get_link(*self) is None,
            },
    {
        match &self.description {
            Some(d) => {
                let v = to_char_vec(d.as_str());
                let gather = to_char_vec("https://app.gather.town");
                match find_from(&v, &gather, 0) {
                    Some(i) => {
                        proof {
                            lemma_first_match_properties(v@, gather@, 0);
                            lemma_run_end_bounds(v@, i + gather_pat().len());
                        }
                        let e = scan_run(&v, i + gather.len());
                        Some(d.as_str().substring_char(i, e).to_owned())
                    },
                    None => {
                        match find_zoom(&v) {
                            Some((i, e)) => {
                                proof {
                                    lemma_first_zoom_properties(v@, 0);
                                    lemma_run_end_bounds(v@, i + https_pat().len());
                                }
                                Some(d.as_str().substring_char(i, e).to_owned())
                            },
                            None => {
                                match &self.hangout_link {
                                    Some(h) => Some(h.clone()),
                                    None => None,
                                }
                            },
                        }
                    },
                }
            },
            None => {
                match &self.hangout_link {
                    Some(h) => Some(h.clone()),
                    None => None,
                }
            },
        }
    }
}

/// The conferencing link prefers a gather.town URL over a zoom.us URL over
/// the native link field, whichever of them are present.
pub proof fn lemma_link_priority(m: Meeting)
    ensures
        (m.description matches Some(d) ==> (gather_match(d@) is Some ==> spec_get_link(m)
            == gather_match(d@))),
        (m.description matches Some(d) ==> (gather_match(d@) is None && zoom_match(d@) is Some
            ==> spec_get_link(m) == zoom_match(d@))),
        (m.description matches Some(d) ==> (description_link(d@) is None ==> spec_get_link(m)
            == spec_native_link(m))),
        m.description is None ==> spec_get_link(m) == spec_native_link(m),
{
}

/// A meeting with no description and no native link has no link.
pub proof fn lemma_no_sources_no_link(m: Meeting)
    requires
        m.description is None,
        m.hangout_link is None,
    ensures
        spec_get_link(m) is None,
{
}

// ---------------------------------------------------------------------------
// Auxiliary links in the description's markup
// ---------------------------------------------------------------------------
/// A hyperlink target starts at `j`: the markup `href="` followed by at
/// least one character other than a double quote.
pub open spec fn href_target_at(s: Seq<char>, j: int) -> bool {
    &&& matches_at(s, href_pat(), j)
    &&& j + href_pat().len() < s.len()
    &&& s[j + href_pat().len()] != '"'
}

/// Every hyperlink target of `s` at or after `from`, in order, duplicates
/// retained. Scanning resumes after each captured target.
pub open spec fn other_links(s: Seq<char>, from: int) -> Seq<Seq<char>>
    decreases s.len() - from,
    via other_links_decreases
{
    if from < 0 || from >= s.len() {
        Seq::empty()
    } else if href_target_at(s, from) {
        seq![
            s.subrange(from + href_pat().len(), quote_end(s, from + href_pat().len())),
        ] + other_links(s, quote_end(s, from + href_pat().len()))
    } else {
        other_links(s, from + 1)
    }
}

#[via_fn]
proof fn other_links_decreases(s: Seq<char>, from: int) {
    if !(from < 0 || from >= s.len()) && href_target_at(s, from) {
        let p = from + href_pat().len();
        lemma_quote_end_bounds(s, p + 1);
        assert(quote_end(s, p) == quote_end(s, p + 1));
    }
}

proof fn lemma_other_links_skip(s: Seq<char>, a: int, b: int)
    requires
        0 <= a <= b <= s.len(),
        forall|j: int| a <= j < b ==> !href_target_at(s, j),
    ensures
        other_links(s, a) == other_links(s, b),
    decreases b - a,
{
    if a < b {
        lemma_other_links_skip(s, a + 1, b);
    }
}

impl Meeting {
    /// Every hyperlink target embedded in the description's markup, in
    /// order, duplicates retained; empty when there is no description.
    pub fn get_other_links(&self) -> (r: Vec<String>)
        ensures
            r.deep_view() == match self.description {
                Some(d) => other_links(d@, 0),
                None => Seq::<Seq<char>>::empty(),
            },
    {
        let mut out: Vec<String> = Vec::new();
        match &self.description {
            None => {
                proof {
                    assert(out.deep_view() =~= Seq::<Seq<char>>::empty());
                }
                out
            },
            Some(d) => {
                let v = to_char_vec(d.as_str());
                let pat = to_char_vec("href=\"");
                proof {
                    lemma_pat_lens();
                }
                let mut from: usize = 0;
                loop
                    invariant
                        pat@ == href_pat(),
                        pat@.len() == 6,
                        from <= v@.len(),
                        v@ == d@,
                        self.description == Some(*d),
                        other_links(v@, 0) == out.deep_view() + other_links(v@, from as int),
                    decreases v@.len() - from,
                {
                    match find_from(&v, &pat, from) {
                        None => {
                            proof {
                                lemma_first_match_properties(v@, pat@, from as int);
                                lemma_other_links_skip(v@, from as int, v@.len() as int);
                                assert(other_links(v@, v@.len() as int) =~= Seq::<
                                    Seq<char>,
                                >::empty());
                                assert(out.deep_view() + other_links(v@, from as int)
                                    =~= out.deep_view());
                                assert(out.deep_view() == other_links(d@, 0));
                            }
                            return out;
                        },
                        Some(i) => {
                            proof {
                                lemma_first_match_properties(v@, pat@, from as int);
                                assert(matches_at(v@, href_pat(), i as int));
                                assert forall|j: int| from <= j < i implies !href_target_at(
                                    v@,
                                    j,
                                ) by {}
                                lemma_other_links_skip(v@, from as int, i as int);
                            }
                            let n = v.len();
                            let p = i + pat.len();
                            if p < n {
                                let c = v[p];
                                if c != '"' {
                                    proof {
                                        assert(href_target_at(v@, i as int));
                                        lemma_quote_end_bounds(v@, p as int);
                                    }
                                    let e = scan_quote(&v, p);
                                    let link = d.as_str().substring_char(p, e).to_owned();
                                    out.push(link);
                                    proof {
                                        assert(out.deep_view() =~= out.deep_view().subrange(
                                            0,
                                            out.deep_view().len() - 1,
                                        ).push(v@.subrange(p as int, e as int)));
                                        assert(other_links(v@, i as int) == seq![
                                            v@.subrange(p as int, e as int),
                                        ] + other_links(v@, e as int));
                                        assert(out.deep_view() + other_links(v@, e as int)
                                            =~= out.deep_view().subrange(
                                            0,
                                            out.deep_view().len() - 1,
                                        ) + other_links(v@, i as int));
                                    }
                                    from = e;
                                } else {
                                    proof {
                                        assert(!href_target_at(v@, i as int));
                                        lemma_other_links_skip(v@, i as int, i + 1);
                                    }
                                    from = i + 1;
                                }
                            } else {
                                proof {
                                    assert(!href_target_at(v@, i as int));
                                    lemma_other_links_skip(v@, i as int, i + 1);
                                }
                                from = i + 1;
                            }
                        },
                    }
                }
            },
        }
    }
}

// ---------------------------------------------------------------------------
// Acceptance
// ---------------------------------------------------------------------------
pub open spec fn accepted_status() -> Seq<char> {
    "accepted"@
}

/// An attendee entry that denotes the user and carries the status
/// "accepted".
pub open spec fn accepting_self(a: Attendee) -> bool {
    a.is_self && a.response_status@ == accepted_status()
}

/// Exactly one attendee entry denotes the user with the status "accepted";
/// any other combination leaves the meeting not accepted.
pub open spec fn spec_accepted(attendees: Seq<Attendee>) -> bool {
    exists|i: int|
        {
            &&& 0 <= i < attendees.len()
            &&& #[trigger] accepting_self(attendees[i])
            &&& forall|j: int|
                0 <= j < attendees.len() && j != i ==> !(#[trigger] accepting_self(attendees[j]))
        }
}

impl Meeting {
    /// Whether the user has accepted this meeting: exactly one attendee
    /// entry is the user's own and has the status "accepted".
    pub fn accepted(&self) -> (r: bool)
        ensures
            r == spec_accepted(self.attendees@),
    {
        let acc: String = "accepted".to_owned();
        let mut first: Option<usize> = None;
        let mut dup = false;
        let ghost mut k2: int = 0;
        let mut i: usize = 0;
        while i < self.attendees.len()
            invariant
                i <= self.attendees@.len(),
                acc@ == accepted_status(),
                first is None ==> !dup && forall|j: int|
                    0 <= j < i ==> !(#[trigger] accepting_self(self.attendees@[j])),
                first matches Some(k) ==> k < i && accepting_self(self.attendees@[k as int])
                    && forall|j: int|
                    0 <= j < k ==> !(#[trigger] accepting_self(self.attendees@[j])),
                first matches Some(k) ==> (!dup ==> forall|j: int|
                    k < j < i ==> !(#[trigger] accepting_self(self.attendees@[j]))),
                dup ==> (first matches Some(k) && k < k2 < i && accepting_self(
                    self.attendees@[k2],
                )),
            decreases self.attendees@.len() - i,
        {
            let a = &self.attendees[i];
            if a.is_self && a.response_status == acc {
                match first {
                    None => {
                        first = Some(i);
                    },
                    Some(_) => {
                        if !dup {
                            dup = true;
                            proof {
                                k2 = i as int;
                            }
                        }
                    },
                }
            }
            i = i + 1;
        }
        match first {
            None => {
                proof {
                    assert forall|i0: int|
                        0 <= i0 < self.attendees@.len() implies !accepting_self(
                        self.attendees@[i0],
                    ) by {}
                }
                false
            },
            Some(k) => {
                if dup {
                    proof {
                        if spec_accepted(self.attendees@) {
                            let i0 = choose|i0: int|
                                {
                                    &&& 0 <= i0 < self.attendees@.len()
                                    &&& #[trigger] accepting_self(self.attendees@[i0])
                                    &&& forall|j: int|
                                        0 <= j < self.attendees@.len() && j != i0 ==> !(
                                        #[trigger] accepting_self(self.attendees@[j]))
                                };
                            if i0 != k {
                                assert(!accepting_self(self.attendees@[k as int]));
                            } else {
                                assert(!accepting_self(self.attendees@[k2]));
                            }
                            assert(false);
                        }
                    }
                    false
                } else {
                    proof {
                        assert(accepting_self(self.attendees@[k as int]) && forall|j: int|
                            0 <= j < self.attendees@.len() && j != k ==> !(
                            #[trigger] accepting_self(self.attendees@[j])));
                    }
                    true
                }
            },
        }
    }
}

// ---------------------------------------------------------------------------
// Start and end instants, selection of the next meeting
// ---------------------------------------------------------------------------
/// The instant of a timed slot, when present and parseable.
pub open spec fn spec_meet_instant(t: Option<MeetTime>) -> Option<i64> {
    match t {
        Some(mt) => match mt.date_time {
            Some(s) => rfc3339_instant_of(s@),
            None => None,
        },
        None => None,
    }
}

fn meet_instant(t: &Option<MeetTime>) -> (r: Option<i64>)
    ensures
        r == spec_meet_instant(*t),
{
    match t {
        Some(mt) => match &mt.date_time {
            Some(s) => parse_rfc3339_epoch(s.as_str()),
            None => None,
        },
        None => None,
    }
}

impl Meeting {
    pub open spec fn spec_start(self) -> Option<i64> {
        spec_meet_instant(self.start)
    }

    pub open spec fn spec_end(self) -> Option<i64> {
        spec_meet_instant(self.end)
    }

    /// The start instant of this meeting, when present and parseable.
    pub fn start_instant(&self) -> (r: Option<i64>)
        ensures
            r == self.spec_start(),
    {
        meet_instant(&self.start)
    }

    /// The end instant of this meeting, when present and parseable.
    pub fn end_instant(&self) -> (r: Option<i64>)
        ensures
            r == self.spec_end(),
    {
        meet_instant(&self.end)
    }
}

/// A meeting takes part in next-meeting selection: it has a link, a
/// parseable start, a parseable end strictly after `now`, and is accepted.
pub open spec fn selectable(m: Meeting, now: i64) -> bool {
    &&& spec_get_link(m) is Some
    &&& m.spec_start() is Some
    &&& m.spec_end() matches Some(e) && e > now
    &&& spec_accepted(m.attendees@)
}

/// The distance from a meeting's start instant to `now`, in seconds.
pub open spec fn start_dist(m: Meeting, now: i64) -> int
    recommends
        m.spec_start() is Some,
{
    spec_abs_distance(m.spec_start()->0, now)
}

fn is_selectable(m: &Meeting, now: i64) -> (r: bool)
    ensures
        r == selectable(*m, now),
{
    if m.get_link().is_none() {
        return false;
    }
    if m.start_instant().is_none() {
        return false;
    }
    match m.end_instant() {
        None => return false,
        Some(e) => {
            if !(e > now) {
                return false;
            }
        },
    }
    m.accepted()
}

/// The index of the next meeting: among the selectable meetings, the first
/// one whose start instant lies nearest to `now` in absolute distance.
pub fn next_meeting_index(meetings: &Vec<Meeting>, now: i64) -> (r: Option<usize>)
    ensures
        match r {
            Some(i) => {
                &&& i < meetings@.len()
                &&& selectable(meetings@[i as int], now)
                &&& forall|j: int|
                    0 <= j < meetings@.len() && #[trigger] selectable(meetings@[j], now)
                        ==> start_dist(meetings@[i as int], now) <= start_dist(meetings@[j], now)
                &&& forall|j: int|
                    0 <= j < i && #[trigger] selectable(meetings@[j], now) ==> start_dist(
                        meetings@[j],
                        now,
                    ) > start_dist(meetings@[i as int], now)
            },
            None => forall|j: int|
                0 <= j < meetings@.len() ==> !#[trigger] selectable(meetings@[j], now),
        },
{
    let mut best: Option<(usize, u64)> = None;
    let mut i: usize = 0;
    while i < meetings.len()
        invariant
            i <= meetings@.len(),
            match best {
                Some(p) => {
                    &&& p.0 < i
                    &&& selectable(meetings@[p.0 as int], now)
                    &&& p.1 == start_dist(meetings@[p.0 as int], now)
                    &&& forall|j: int|
                        0 <= j < i && #[trigger] selectable(meetings@[j], now) ==> p.1
                            <= start_dist(meetings@[j], now)
                    &&& forall|j: int|
                        0 <= j < p.0 && #[trigger] selectable(meetings@[j], now) ==> start_dist(
                            meetings@[j],
                            now,
                        ) > p.1
                },
                None => forall|j: int|
                    0 <= j < i ==> !#[trigger] selectable(meetings@[j], now),
            },
        decreases meetings@.len() - i,
    {
        let m = &meetings[i];
        if is_selectable(m, now) {
            let s = m.start_instant().unwrap();
            let d = abs_distance(s, now);
            match best {
                None => {
                    best = Some((i, d));
                },
                Some(p) => {
                    if d < p.1 {
                        best = Some((i, d));
                    }
                },
            }
        }
        i = i + 1;
    }
    match best {
        Some(p) => Some(p.0),
        None => None,
    }
}

/// The next meeting: the first selectable meeting whose start instant lies
/// nearest to `now`, or none when no meeting is selectable.
pub fn next_meeting<'a>(meetings: &'a Vec<Meeting>, now: i64) -> (r: Option<&'a Meeting>)
    ensures
        match r {
            Some(m) => exists|i: int|
                {
                    &&& 0 <= i < meetings@.len()
                    &&& #[trigger] meetings@[i] == *m
                    &&& selectable(meetings@[i], now)
                    &&& forall|j: int|
                        0 <= j < meetings@.len() && #[trigger] selectable(meetings@[j], now)
                            ==> start_dist(meetings@[i], now) <= start_dist(meetings@[j], now)
                    &&& forall|j: int|
                        0 <= j < i && #[trigger] selectable(meetings@[j], now) ==> start_dist(
                            meetings@[j],
                            now,
                        ) > start_dist(meetings@[i], now)
                },
            None => forall|j: int|
                0 <= j < meetings@.len() ==> !#[trigger] selectable(meetings@[j], now),
        },
{
    match next_meeting_index(meetings, now) {
        Some(i) => Some(&meetings[i]),
        None => None,
    }
}

// ---------------------------------------------------------------------------
// The full listing of the day's relevant meetings
// ---------------------------------------------------------------------------
/// A meeting appears in the full listing: it has a link, a parseable start,
/// and is accepted.
pub open spec fn listable(m: Meeting) -> bool {
    &&& spec_get_link(m) is Some
    &&& m.spec_start() is Some
    &&& spec_accepted(m.attendees@)
}

pub open spec fn listable_pred() -> spec_fn(Meeting) -> bool {
    |m: Meeting| listable(m)
}

/// The start instant of a meeting whose start parses.
pub open spec fn start_key(m: Meeting) -> int
    recommends
        m.spec_start() is Some,
{
    m.spec_start()->0 as int
}

fn is_listable(m: &Meeting) -> (r: bool)
    ensures
        r == listable(*m),
{
    if m.get_link().is_none() {
        return false;
    }
    if m.start_instant().is_none() {
        return false;
    }
    m.accepted()
}

/// Insert a meeting into a listing sorted ascending by start instant,
/// after every entry whose start does not exceed its own.
pub open spec fn insert_sorted(m: Meeting, s: Seq<Meeting>) -> Seq<Meeting>
    decreases s.len(),
{
    if s.len() > 0 && start_key(s[0]) <= start_key(m) {
        seq![s[0]] + insert_sorted(m, s.drop_first())
    } else {
        seq![m] + s
    }
}

/// The stable ascending order of a listing: each meeting is inserted after
/// the earlier meetings whose start does not exceed its own, so meetings
/// with equal starts keep their original order.
pub open spec fn stable_sorted(s: Seq<Meeting>) -> Seq<Meeting>
    decreases s.len(),
{
    if s.len() == 0 {
        s
    } else {
        insert_sorted(s.last(), stable_sorted(s.drop_last()))
    }
}

/// Inserting at the index that ends the run of keys not exceeding `m`'s is
/// what `insert_sorted` does.
proof fn lemma_insert_sorted_at(m: Meeting, s: Seq<Meeting>, k: int)
    requires
        0 <= k <= s.len(),
        forall|j: int| 0 <= j < k ==> start_key(#[trigger] s[j]) <= start_key(m),
        k < s.len() ==> start_key(s[k]) > start_key(m),
        forall|i: int, j: int| 0 <= i < j < s.len() ==> start_key(s[i]) <= start_key(s[j]),
    ensures
        insert_sorted(m, s) == s.insert(k, m),
    decreases s.len(),
{
    if k == 0 {
        if s.len() > 0 {
            assert(start_key(s[0]) > start_key(m));
        }
        assert(insert_sorted(m, s) =~= s.insert(0, m));
    } else {
        assert(start_key(s[0]) <= start_key(m));
        lemma_insert_sorted_at(m, s.drop_first(), k - 1);
        assert(seq![s[0]] + s.drop_first().insert(k - 1, m) =~= s.insert(k, m));
    }
}

/// The full listing: every meeting with a link, a parseable start, and an
/// acceptance, in the stable ascending order of start instants.
pub fn all_meetings(meetings: Vec<Meeting>) -> (r: Vec<Meeting>)
    ensures
        r@ == stable_sorted(meetings@.filter(listable_pred())),
        r@.to_multiset() == meetings@.filter(listable_pred()).to_multiset(),
        forall|i: int| 0 <= i < r@.len() ==> listable(#[trigger] r@[i]),
        forall|i: int, j: int| 0 <= i < j < r@.len() ==> start_key(r@[i]) <= start_key(r@[j]),
{
    let ghost orig = meetings@;
    let mut rest = meetings;
    let mut out: Vec<Meeting> = Vec::new();
    let ghost mut seen: Seq<Meeting> = Seq::empty();
    proof {
        assert(out@.to_multiset().len() == 0);
        assert(out@.to_multiset() =~= Multiset::<Meeting>::empty());
        assert(seen.filter(listable_pred()) =~= Seq::<Meeting>::empty()) by {
            reveal(Seq::filter);
        }
        assert(out@ =~= stable_sorted(seen.filter(listable_pred())));
        assert(out@.to_multiset() =~= seen.filter(listable_pred()).to_multiset());
    }
    while rest.len() > 0
        invariant
            orig == seen + rest@,
            out@ == stable_sorted(seen.filter(listable_pred())),
            out@.to_multiset() == seen.filter(listable_pred()).to_multiset(),
            forall|i: int| 0 <= i < out@.len() ==> listable(#[trigger] out@[i]),
            forall|i: int, j: int|
                0 <= i < j < out@.len() ==> start_key(out@[i]) <= start_key(out@[j]),
        decreases rest@.len(),
    {
        let ghost old_rest = rest@;
        let ghost old_out = out@;
        let m = rest.remove(0);
        let keep = is_listable(&m);
        proof {
            reveal(Seq::filter);
            assert(seen.push(m).drop_last() =~= seen);
            assert(seen.push(m).filter(listable_pred()) == (if listable_pred()(m) {
                seen.filter(listable_pred()).push(m)
            } else {
                seen.filter(listable_pred())
            }));
            assert(orig =~= seen.push(m) + old_rest.remove(0));
        }
        if keep {
            let mk = m.start_instant().unwrap();
            let mut k = out.len();
            loop
                invariant
                    k <= out@.len(),
                    out@ == old_out,
                    mk as int == start_key(m),
                    forall|i: int| 0 <= i < out@.len() ==> listable(#[trigger] out@[i]),
                    forall|i: int, j: int|
                        0 <= i < j < out@.len() ==> start_key(out@[i]) <= start_key(out@[j]),
                    forall|j: int|
                        k <= j < out@.len() ==> start_key(#[trigger] out@[j]) > start_key(m),
                ensures
                    k == 0 || start_key(out@[k - 1]) <= start_key(m),
                decreases k,
            {
                if k == 0 {
                    break ;
                }
                let prev = out[k - 1].start_instant().unwrap();
                if prev <= mk {
                    break ;
                }
                k = k - 1;
            }
            proof {
                assert forall|j: int| 0 <= j < k implies start_key(#[trigger] out@[j])
                    <= start_key(m) by {
                    assert(start_key(out@[k - 1]) <= start_key(m));
                    if j < k - 1 {
                        assert(start_key(out@[j]) <= start_key(out@[k - 1]));
                    }
                }
                lemma_insert_sorted_at(m, out@, k as int);
                old_out.insert_ensures(k as int, m);
            }
            out.insert(k, m);
            proof {
                let p = seen.filter(listable_pred());
                assert(out@ == insert_sorted(m, stable_sorted(p)));
                assert(stable_sorted(p.push(m)) == insert_sorted(m, stable_sorted(p))) by {
                    assert(p.push(m).drop_last() =~= p);
                }
                assert(out@.to_multiset() =~= p.push(m).to_multiset());
            }
        }
        proof {
            seen = seen.push(m);
        }
    }
    proof {
        assert(orig =~= seen);
    }
    out
}

} // verus!
