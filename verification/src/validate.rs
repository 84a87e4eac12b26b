//! Entry validation: turning a set of proposed field edits into an
//! applyable patch, or the ordered list of violated rules.

use crate::tags::normalize;
use crate::tags::normalize_spec;
use crate::tags::trim_spec;
use crate::time::Precision;
use crate::time::Timestamp;
use crate::time::parse_ok;
use crate::time::parse_timestamp;
use crate::time::text_fields;
use crate::time::ts_le;
use vstd::prelude::*;

verus! {

/// A validation rule an edit can violate, in report order.
#[derive(Clone, Copy, PartialEq, Eq, Structural, Debug)]
pub enum Rule {
    NameRequired,
    StartFormat,
    StopFormat,
    FutureTime,
    RangeInvalid,
}

/// A set of proposed field edits for one entry: any subset of task name,
/// raw tag text, start text and stop text.
#[derive(Debug)]
pub struct EditRequest {
    pub name: Option<String>,
    pub tags: Option<String>,
    pub start_text: Option<String>,
    pub stop_text: Option<String>,
}

/// The mathematical view of an edit request.
pub struct ReqView {
    pub name: Option<Seq<char>>,
    pub tags: Option<Seq<char>>,
    pub start_text: Option<Seq<char>>,
    pub stop_text: Option<Seq<char>>,
}

impl View for EditRequest {
    type V = ReqView;

    open spec fn view(&self) -> ReqView {
        ReqView {
            name: match self.name {
                Some(ref s) => Some(s@),
                None => None,
            },
            tags: match self.tags {
                Some(ref s) => Some(s@),
                None => None,
            },
            start_text: match self.start_text {
                Some(ref s) => Some(s@),
                None => None,
            },
            stop_text: match self.stop_text {
                Some(ref s) => Some(s@),
                None => None,
            },
        }
    }
}

/// An approved, atomically applyable set of field changes.
#[derive(Debug)]
pub struct EntryPatch {
    pub name: Option<String>,
    pub tags: Option<Vec<String>>,
    pub start: Option<Timestamp>,
    pub stop: Option<Timestamp>,
}

/// The mathematical view of a patch.
pub struct PatchView {
    pub name: Option<Seq<char>>,
    pub tags: Option<Seq<Seq<char>>>,
    pub start: Option<Timestamp>,
    pub stop: Option<Timestamp>,
}

impl View for EntryPatch {
    type V = PatchView;

    open spec fn view(&self) -> PatchView {
        PatchView {
            name: match self.name {
                Some(ref s) => Some(s@),
                None => None,
            },
            tags: match self.tags {
                Some(ref v) => Some(v.deep_view()),
                None => None,
            },
            start: self.start,
            stop: self.stop,
        }
    }
}

/// The name rule is violated: a name is being set and trims to nothing.
pub open spec fn name_violation(r: ReqView) -> bool {
    match r.name {
        Some(n) => trim_spec(n).len() == 0,
        None => false,
    }
}

/// The start text is being set and does not parse.
pub open spec fn start_format_violation(r: ReqView, p: Precision) -> bool {
    match r.start_text {
        Some(t) => !parse_ok(t, p),
        None => false,
    }
}

/// The stop text is being set and does not parse.
pub open spec fn stop_format_violation(r: ReqView, p: Precision) -> bool {
    match r.stop_text {
        Some(t) => !parse_ok(t, p),
        None => false,
    }
}

/// The start instant the patch would leave in place: the parsed new text
/// where one is set, else the stored value.
pub open spec fn resolved_start(r: ReqView, p: Precision, cur: Timestamp) -> Timestamp {
    match r.start_text {
        Some(t) => text_fields(t, p),
        None => cur,
    }
}

/// The stop instant the patch would leave in place.
pub open spec fn resolved_stop(r: ReqView, p: Precision, cur: Timestamp) -> Timestamp {
    match r.stop_text {
        Some(t) => text_fields(t, p),
        None => cur,
    }
}

/// An edited, parsed start or stop lies after the current instant.
pub open spec fn future_violation(r: ReqView, p: Precision, now: Timestamp) -> bool {
    ||| match r.start_text {
        Some(t) => parse_ok(t, p) && !ts_le(text_fields(t, p), now),
        None => false,
    }
    ||| match r.stop_text {
        Some(t) => parse_ok(t, p) && !ts_le(text_fields(t, p), now),
        None => false,
    }
}

/// Both endpoints resolve and the resolved start lies after the resolved
/// stop. An endpoint whose new text does not parse leaves the range rule
/// unjudged.
pub open spec fn range_violation(
    r: ReqView,
    p: Precision,
    cur_start: Timestamp,
    cur_stop: Timestamp,
) -> bool {
    &&& !start_format_violation(r, p)
    &&& !stop_format_violation(r, p)
    &&& !ts_le(resolved_start(r, p, cur_start), resolved_stop(r, p, cur_stop))
}

/// The ordered list of rules the request violates.
pub open spec fn violations_spec(
    r: ReqView,
    p: Precision,
    cur_start: Timestamp,
    cur_stop: Timestamp,
    now: Timestamp,
) -> Seq<Rule> {
    (if name_violation(r) {
        seq![Rule::NameRequired]
    } else {
        Seq::empty()
    }) + (if start_format_violation(r, p) {
        seq![Rule::StartFormat]
    } else {
        Seq::empty()
    }) + (if stop_format_violation(r, p) {
        seq![Rule::StopFormat]
    } else {
        Seq::empty()
    }) + (if future_violation(r, p, now) {
        seq![Rule::FutureTime]
    } else {
        Seq::empty()
    }) + (if range_violation(r, p, cur_start, cur_stop) {
        seq![Rule::RangeInvalid]
    } else {
        Seq::empty()
    })
}

/// The request is free of violations.
pub open spec fn accepted(
    r: ReqView,
    p: Precision,
    cur_start: Timestamp,
    cur_stop: Timestamp,
    now: Timestamp,
) -> bool {
    &&& !name_violation(r)
    &&& !start_format_violation(r, p)
    &&& !stop_format_violation(r, p)
    &&& !future_violation(r, p, now)
    &&& !range_violation(r, p, cur_start, cur_stop)
}

/// The patch an accepted request yields: the name as given, the tag text
/// normalized, the time texts parsed.
pub open spec fn approved_patch(r: ReqView, p: Precision) -> PatchView {
    PatchView {
        name: match r.name {
            Some(n) => Some(n),
            None => None,
        },
        tags: match r.tags {
            Some(t) => Some(normalize_spec(t)),
            None => None,
        },
        start: match r.start_text {
            Some(t) => Some(text_fields(t, p)),
            None => None,
        },
        stop: match r.stop_text {
            Some(t) => Some(text_fields(t, p)),
            None => None,
        },
    }
}

/// Validate one proposed edit against the entry's stored times and the
/// current instant. Every violated rule is reported, in report order; a
/// patch comes back only when no rule is violated.
pub fn validate_edit(
    req: &EditRequest,
    cur_start: &Timestamp,
    cur_stop: &Timestamp,
    now: &Timestamp,
    p: Precision,
) -> (r: Result<EntryPatch, Vec<Rule>>)
    requires
        cur_start.wf(),
        cur_stop.wf(),
        now.wf(),
    ensures
        r is Ok <==> accepted(req@, p, *cur_start, *cur_stop, *now),
        r matches Ok(patch) ==> patch@ == approved_patch(req@, p) && (patch@.start matches Some(t)
            ==> t.wf()) && (patch@.stop matches Some(t) ==> t.wf()) && (patch@.tags matches Some(
            tv,
        ) ==> crate::entry::canon_tags(tv)),
        r matches Err(v) ==> v@ == violations_spec(req@, p, *cur_start, *cur_stop, *now)
            && v@.len() > 0,
{
    let mut violations: Vec<Rule> = Vec::new();

    let mut name_out: Option<String> = None;
    match req.name {
        Some(ref n) => {
            let trimmed = crate::tags::trim_str(n.as_str());
            if trimmed.as_str().unicode_len() == 0 {
                violations.push(Rule::NameRequired);
            }
            name_out = Some(n.clone());
        },
        None => {},
    }

    let mut start_out: Option<Timestamp> = None;
    let mut start_bad = false;
    match req.start_text {
        Some(ref t) => {
            match parse_timestamp(t.as_str(), p) {
                Some(ts) => {
                    start_out = Some(ts);
                },
                None => {
                    start_bad = true;
                    violations.push(Rule::StartFormat);
                },
            }
        },
        None => {},
    }

    let mut stop_out: Option<Timestamp> = None;
    let mut stop_bad = false;
    match req.stop_text {
        Some(ref t) => {
            match parse_timestamp(t.as_str(), p) {
                Some(ts) => {
                    stop_out = Some(ts);
                },
                None => {
                    stop_bad = true;
                    violations.push(Rule::StopFormat);
                },
            }
        },
        None => {},
    }

    let mut future = false;
    match start_out {
        Some(ref ts) => {
            if !ts.le(now) {
                future = true;
            }
        },
        None => {},
    }
    match stop_out {
        Some(ref ts) => {
            if !ts.le(now) {
                future = true;
            }
        },
        None => {},
    }
    if future {
        violations.push(Rule::FutureTime);
    }

    if !start_bad && !stop_bad {
        let rs = match start_out {
            Some(ts) => ts,
            None => *cur_start,
        };
        let rt = match stop_out {
            Some(ts) => ts,
            None => *cur_stop,
        };
        if !rs.le(&rt) {
            violations.push(Rule::RangeInvalid);
        }
    }

    if violations.len() > 0 {
        proof {
            assert(violations@ =~= violations_spec(req@, p, *cur_start, *cur_stop, *now));
        }
        return Err(violations);
    }

    let tags_out: Option<Vec<String>> = match req.tags {
        Some(ref t) => Some(normalize(t.as_str())),
        None => None,
    };
    let patch = EntryPatch { name: name_out, tags: tags_out, start: start_out, stop: stop_out };
    proof {
        assert(violations_spec(req@, p, *cur_start, *cur_stop, *now).len() == 0);
        match req@.tags {
            Some(tv) => crate::tags::lemma_normalize_canonical(tv),
            None => {},
        }
    }
    Ok(patch)
}

/// Law: for an edit that sets both time texts to parseable values, with
/// start and stop the parsed instants: when start is no later than stop
/// and neither lies after the current instant, the edit is accepted (no
/// time rule is violated); when start lies after stop, `RangeInvalid` is
/// among the violations; when either instant lies after the current
/// instant, `FutureTime` is among the violations.
pub proof fn lemma_time_rules(
    r: ReqView,
    p: Precision,
    cur_start: Timestamp,
    cur_stop: Timestamp,
    now: Timestamp,
)
    requires
        r.start_text matches Some(t) && parse_ok(t, p),
        r.stop_text matches Some(t) && parse_ok(t, p),
    ensures
        ({
            let s = text_fields(r.start_text->0, p);
            let t = text_fields(r.stop_text->0, p);
            &&& ((ts_le(s, t) && ts_le(s, now) && ts_le(t, now) && !name_violation(r))
                == accepted(r, p, cur_start, cur_stop, now))
            &&& (!ts_le(s, t) == violations_spec(r, p, cur_start, cur_stop, now).contains(
                Rule::RangeInvalid,
            ))
            &&& ((!ts_le(s, now) || !ts_le(t, now)) == violations_spec(
                r,
                p,
                cur_start,
                cur_stop,
                now,
            ).contains(Rule::FutureTime))
        }),
{
    let v = violations_spec(r, p, cur_start, cur_stop, now);
    let s = text_fields(r.start_text->0, p);
    let t = text_fields(r.stop_text->0, p);
    if !ts_le(s, t) {
        assert(range_violation(r, p, cur_start, cur_stop));
        assert(v.last() == Rule::RangeInvalid);
        assert(v.contains(Rule::RangeInvalid));
    } else {
        assert(!range_violation(r, p, cur_start, cur_stop));
        assert(forall|i: int| 0 <= i < v.len() ==> v[i] != Rule::RangeInvalid);
    }
    if !ts_le(s, now) || !ts_le(t, now) {
        assert(future_violation(r, p, now));
        let k = (if name_violation(r) {
            1int
        } else {
            0int
        });
        assert(v[k] == Rule::FutureTime);
        assert(v.contains(Rule::FutureTime));
    } else {
        assert(!future_violation(r, p, now));
        assert(forall|i: int| 0 <= i < v.len() ==> v[i] != Rule::FutureTime);
    }
}

} // verus!
