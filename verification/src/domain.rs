//! The data model of one processed indicator, and domain normalization.
use vstd::prelude::*;

use crate::text::{
    all_ascii, ascii_lower, chars_of, is_ascii_char, is_white_space, lemma_trim, lemma_trim_ascii,
    str_lowercase, string_of, to_lowercase, trim, trim_chars, trim_end, trim_start,
};
use crate::validate::{domain_check, lemma_valid_domain_shape};

verus! {

/// How an indicator was triaged.
#[derive(Debug, Clone, Copy, PartialEq, Eq, Structural)]
pub enum DomainStatus {
    Accepted,
    Suspicious,
    Rejected,
}

/// One input line after triage.
#[derive(Debug, Clone)]
pub struct DomainRecord {
    pub original: String,
    pub normalized: Option<String>,
    pub source: String,
    pub status: DomainStatus,
    pub reason: String,
}

/// The mathematical value of a `DomainRecord`: its strings as character sequences.
pub struct RecordView {
    pub original: Seq<char>,
    pub normalized: Option<Seq<char>>,
    pub source: Seq<char>,
    pub status: DomainStatus,
    pub reason: Seq<char>,
}

impl View for DomainRecord {
    type V = RecordView;

    open spec fn view(&self) -> RecordView {
        RecordView {
            original: self.original@,
            normalized: match self.normalized {
                Some(n) => Some(n@),
                None => None,
            },
            source: self.source@,
            status: self.status,
            reason: self.reason@,
        }
    }
}

impl DomainRecord {
    /// A fresh record: accepted, not yet normalized, with an empty reason.
    pub fn new(original: String, source: String) -> (res: Self)
        ensures
            res@ == (RecordView {
                original: original@,
                normalized: None,
                source: source@,
                status: DomainStatus::Accepted,
                reason: Seq::empty(),
            }),
    {
        DomainRecord {
            original,
            normalized: None,
            source,
            status: DomainStatus::Accepted,
            reason: String::new(),
        }
    }
}

/// `s` without one trailing dot, if it ends with one.
pub open spec fn strip_dot(s: Seq<char>) -> Seq<char> {
    if s.len() > 0 && s.last() == '.' {
        s.drop_last()
    } else {
        s
    }
}

/// The normal form of a domain: trimmed, lower-cased, and without a trailing dot.
pub open spec fn spec_normalize(d: Seq<char>) -> Seq<char> {
    strip_dot(str_lowercase(trim(d)))
}

/// ASCII lower-case letters are mapped to upper case; everything else is kept.
pub open spec fn ascii_upper(c: char) -> char {
    if 'a' <= c && c <= 'z' {
        ((c as u32) - 32) as char
    } else {
        c
    }
}

/// What normalization gives on ASCII text: trimmed, each letter lower-cased,
/// and one trailing dot removed.
pub open spec fn ascii_normalize(d: Seq<char>) -> Seq<char> {
    strip_dot(trim(d).map_values(|c: char| ascii_lower(c)))
}

/// Removes one trailing dot, if there is one.
pub fn strip_trailing_dot(s: &str) -> (res: String)
    ensures
        res@ == strip_dot(s@),
{
    let mut v = chars_of(s);
    if v.len() > 0 && v[v.len() - 1] == '.' {
        v.pop();
    }
    string_of(&v)
}

/// Trims white space, lower-cases, and removes one trailing dot.
///
/// A domain that already passes validation comes back unchanged.
pub fn normalize(domain: &str) -> (res: String)
    ensures
        res@ == spec_normalize(domain@),
        all_ascii(domain@) ==> res@ == ascii_normalize(domain@),
        domain_check(domain@) is Ok ==> res@ == domain@,
{
    let v = chars_of(domain);
    let trimmed = trim_chars(&v);
    let t = string_of(&trimmed);
    let lower = to_lowercase(t.as_str());
    let res = strip_trailing_dot(lower.as_str());
    proof {
        if all_ascii(domain@) {
            lemma_trim_ascii(domain@);
        }
        if domain_check(domain@) is Ok {
            lemma_valid_domain_shape(domain@);
            let d = domain@;
            assert(trim_start(d) == d);
            assert(trim_end(d) == d);
            assert(trimmed@ == d);
            assert(all_ascii(d));
            assert(lower@ =~= d) by {
                assert forall|i: int| 0 <= i < d.len() implies lower@[i] == d[i] by {
                    assert(lower@[i] == ascii_lower(d[i]));
                }
            }
        }
    }
    res
}

/// Lower-casing an upper-cased letter gives the lower-case letter; lower-case
/// letters are never upper-case.
proof fn lemma_ascii_case(c: char)
    ensures
        ascii_lower(ascii_upper(c)) == ascii_lower(c),
        ascii_lower(ascii_lower(c)) == ascii_lower(c),
        !('A' <= ascii_lower(c) && ascii_lower(c) <= 'Z'),
        is_white_space(ascii_upper(c)) == is_white_space(c),
        is_white_space(ascii_lower(c)) == is_white_space(c),
{
    vstd::utf8::char_u32_cast(c, c as u32);
    if 'a' <= c && c <= 'z' {
        assert(((c as u32) - 32) as char as u32 == (c as u32) - 32) by {
            vstd::utf8::char_is_scalar(((c as u32) - 32) as char);
        }
    }
    if 'A' <= c && c <= 'Z' {
        assert(((c as u32) + 32) as char as u32 == (c as u32) + 32) by {
            vstd::utf8::char_is_scalar(((c as u32) + 32) as char);
        }
    }
}

/// Trimming commutes with ASCII upper-casing, which keeps white space as it is.
proof fn lemma_trim_upper(s: Seq<char>)
    ensures
        trim(s.map_values(|c: char| ascii_upper(c))) == trim(s).map_values(
            |c: char| ascii_upper(c),
        ),
{
    lemma_trim_start_upper(s);
    lemma_trim_end_upper(trim_start(s));
}

proof fn lemma_trim_start_upper(s: Seq<char>)
    ensures
        trim_start(s.map_values(|c: char| ascii_upper(c))) == trim_start(s).map_values(
            |c: char| ascii_upper(c),
        ),
    decreases s.len(),
{
    let u = s.map_values(|c: char| ascii_upper(c));
    if s.len() > 0 {
        lemma_ascii_case(s[0]);
        assert(u[0] == ascii_upper(s[0]));
        if is_white_space(s[0]) {
            assert(u.drop_first() =~= s.drop_first().map_values(|c: char| ascii_upper(c)));
            lemma_trim_start_upper(s.drop_first());
        }
    } else {
        assert(u =~= s.map_values(|c: char| ascii_upper(c)));
    }
}

proof fn lemma_trim_end_upper(s: Seq<char>)
    ensures
        trim_end(s.map_values(|c: char| ascii_upper(c))) == trim_end(s).map_values(
            |c: char| ascii_upper(c),
        ),
    decreases s.len(),
{
    let u = s.map_values(|c: char| ascii_upper(c));
    if s.len() > 0 {
        lemma_ascii_case(s.last());
        assert(u.last() == ascii_upper(s.last()));
        if is_white_space(s.last()) {
            assert(u.drop_last() =~= s.drop_last().map_values(|c: char| ascii_upper(c)));
            lemma_trim_end_upper(s.drop_last());
        }
    }
}

/// Normalizing ASCII text twice changes nothing, as long as the first result
/// neither ends with a dot nor with white space (removing one trailing dot can
/// uncover another dot or white space).
pub proof fn lemma_ascii_normalize_idempotent(s: Seq<char>)
    requires
        all_ascii(s),
        !(ascii_normalize(s).len() > 0 && ascii_normalize(s).last() == '.'),
        trim_end(ascii_normalize(s)) == ascii_normalize(s),
    ensures
        all_ascii(ascii_normalize(s)),
        ascii_normalize(ascii_normalize(s)) == ascii_normalize(s),
{
    let t = trim(s);
    let m = t.map_values(|c: char| ascii_lower(c));
    let r = ascii_normalize(s);
    lemma_trim(s);
    lemma_trim_ascii(s);
    assert forall|i: int| 0 <= i < m.len() implies is_ascii_char(#[trigger] m[i]) by {
        assert(is_ascii_char(t[i]));
    }
    assert(r.len() <= m.len());
    assert forall|i: int| 0 <= i < r.len() implies r[i] == m[i] by {}
    if r.len() > 0 {
        lemma_ascii_case(t[0]);
        assert(r[0] == ascii_lower(t[0]));
        assert(trim_start(r) == r);
    } else {
        assert(trim_start(r) == r);
    }
    assert(trim(r) == r);
    assert(r.map_values(|c: char| ascii_lower(c)) =~= r) by {
        assert forall|i: int| 0 <= i < r.len() implies ascii_lower(r[i]) == r[i] by {
            lemma_ascii_case(t[i]);
            assert(r[i] == ascii_lower(t[i]));
        }
    }
}

/// ASCII normalization ignores letter case, and its result holds no
/// upper-case ASCII letter.
pub proof fn lemma_ascii_normalize_case(s: Seq<char>)
    ensures
        ascii_normalize(s.map_values(|c: char| ascii_upper(c))) == ascii_normalize(s),
        forall|i: int|
            0 <= i < ascii_normalize(s).len() ==> !('A' <= #[trigger] ascii_normalize(s)[i]
                && ascii_normalize(s)[i] <= 'Z'),
{
    lemma_trim_upper(s);
    let t = trim(s);
    let tu = t.map_values(|c: char| ascii_upper(c));
    assert(tu.map_values(|c: char| ascii_lower(c)) =~= t.map_values(|c: char| ascii_lower(c)))
        by {
        assert forall|i: int| 0 <= i < t.len() implies ascii_lower(tu[i]) == ascii_lower(t[i]) by {
            lemma_ascii_case(t[i]);
        }
    }
    let r = ascii_normalize(s);
    let m = t.map_values(|c: char| ascii_lower(c));
    assert forall|i: int| 0 <= i < r.len() implies !('A' <= #[trigger] r[i] && r[i] <= 'Z') by {
        assert(r[i] == m[i]);
        lemma_ascii_case(t[i]);
    }
}

/// Stripping the trailing dot removes exactly one final `.` and nothing else.
pub proof fn lemma_strip_dot(s: Seq<char>)
    ensures
        strip_dot(s.push('.')) == s,
        !(s.len() > 0 && s.last() == '.') ==> strip_dot(s) == s,
{
    assert(s.push('.').drop_last() =~= s);
}

} // verus!
