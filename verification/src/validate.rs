//! Validation of domain syntax, the suspicion heuristics, and the triage of a
//! whole CSV input.
use vstd::prelude::*;

use crate::domain::{DomainRecord, DomainStatus, RecordView, normalize, spec_normalize};
use crate::text::{
    chars_eq, lemma_lines_of_first, lemma_trim, occurs_at, chars_of, contains_char, contains_chars, contains_seq, count_char, count_chars,
    find_char, index_of, lemma_index_of, lines_chars, lines_of, push_str, seq_views, split_chars,
    split_on, starts_with, starts_with_chars, str_lowercase, string_of, subvec, to_lowercase, trim,
    trim_chars, trim_str,
};

verus! {

broadcast use vstd::std_specs::vec::group_vec_axioms;

// ---------------------------------------------------------------------------
// Domain syntax
// ---------------------------------------------------------------------------
/// Characters a domain may hold: ASCII lower-case letters, digits, dot and hyphen.
pub open spec fn is_domain_char(c: char) -> bool {
    ('a' <= c && c <= 'z') || ('0' <= c && c <= '9') || c == '.' || c == '-'
}

/// The first character of `s` that a domain may not hold.
pub open spec fn first_bad_char(s: Seq<char>) -> Option<char>
    decreases s.len(),
{
    if s.len() == 0 {
        None
    } else if !is_domain_char(s[0]) {
        Some(s[0])
    } else {
        first_bad_char(s.drop_first())
    }
}

/// A label that is empty, longer than 63 characters, or starts or ends with a hyphen.
pub open spec fn bad_label(l: Seq<char>) -> bool {
    l.len() == 0 || l.len() > 63 || l[0] == '-' || l.last() == '-'
}

/// The complaint about the first bad label, in order.
pub open spec fn label_error(labels: Seq<Seq<char>>) -> Option<Seq<char>>
    decreases labels.len(),
{
    if labels.len() == 0 {
        None
    } else {
        let l = labels[0];
        if l.len() == 0 {
            Some("domain contains an empty label"@)
        } else if l.len() > 63 {
            Some("label '"@ + l + "' exceeds 63 characters"@)
        } else if l[0] == '-' || l.last() == '-' {
            Some("label '"@ + l + "' starts or ends with a hyphen"@)
        } else {
            label_error(labels.drop_first())
        }
    }
}

/// The outcome of checking a (normalized) domain: `Ok` or the first rule it breaks.
pub open spec fn domain_check(d: Seq<char>) -> Result<(), Seq<char>> {
    if d.len() == 0 {
        Err("domain is empty"@)
    } else if !d.contains('.') {
        Err("domain has no dot"@)
    } else if vstd::utf8::encode_utf8(d).len() > 253 {
        Err("domain length exceeds 253 characters"@)
    } else if contains_seq(d, seq!['.', '.']) {
        Err("domain contains consecutive dots"@)
    } else {
        match first_bad_char(d) {
            Some(c) => Err("invalid character '"@ + seq![c] + "' in domain"@),
            None => match label_error(split_on(d, '.')) {
                Some(m) => Err(m),
                None => Ok(()),
            },
        }
    }
}

/// The domain syntax rules: a domain is invalid when it is empty, has no dot,
/// is longer than 253 bytes in UTF-8, has consecutive dots, holds a character
/// other than a lower-case ASCII letter, digit, dot or hyphen, or has a label
/// that is empty, longer than 63 characters, or starts or ends with a hyphen.
pub open spec fn breaks_domain_rules(d: Seq<char>) -> bool {
    ||| d.len() == 0
    ||| !d.contains('.')
    ||| vstd::utf8::encode_utf8(d).len() > 253
    ||| contains_seq(d, seq!['.', '.'])
    ||| exists|i: int| 0 <= i < d.len() && !is_domain_char(#[trigger] d[i])
    ||| exists|k: int|
        0 <= k < split_on(d, '.').len() && bad_label(#[trigger] split_on(d, '.')[k])
}

/// The first broken rule is reported exactly when some rule is broken.
pub proof fn lemma_domain_check_rules(d: Seq<char>)
    ensures
        domain_check(d) is Err <==> breaks_domain_rules(d),
{
    lemma_first_bad_char_none(d);
    lemma_label_error_none(split_on(d, '.'));
}

fn domain_char(c: char) -> (res: bool)
    ensures
        res == is_domain_char(c),
{
    ('a' <= c && c <= 'z') || ('0' <= c && c <= '9') || c == '.' || c == '-'
}

fn label_message(prefix: &str, label: &Vec<char>, suffix: &str) -> (res: String)
    ensures
        res@ == prefix@ + label@ + suffix@,
{
    let mut m: Vec<char> = Vec::new();
    push_str(&mut m, prefix);
    crate::text::push_chars(&mut m, label);
    push_str(&mut m, suffix);
    assert(m@ =~= prefix@ + label@ + suffix@);
    string_of(&m)
}

/// Checks domain syntax, reporting the first rule the domain breaks.
pub fn is_valid_domain(domain: &str) -> (res: Result<(), String>)
    ensures
        match res {
            Ok(_) => domain_check(domain@) is Ok,
            Err(m) => domain_check(domain@) == Err::<(), Seq<char>>(m@),
        },
        res is Err <==> breaks_domain_rules(domain@),
        res is Ok ==> forall|i: int|
            0 <= i < domain@.len() ==> ('a' <= #[trigger] domain@[i] && domain@[i] <= 'z') || (
            '0' <= domain@[i] && domain@[i] <= '9') || domain@[i] == '.' || domain@[i] == '-',
{
    proof {
        lemma_domain_check_rules(domain@);
        if domain_check(domain@) is Ok {
            lemma_valid_domain_chars(domain@);
        }
    }
    let v = chars_of(domain);
    if v.len() == 0 {
        return Err("domain is empty".to_owned());
    }
    if !contains_char(&v, '.') {
        return Err("domain has no dot".to_owned());
    }
    let bytes = domain.as_bytes();
    if bytes.len() > 253 {
        return Err("domain length exceeds 253 characters".to_owned());
    }
    let mut dots: Vec<char> = Vec::new();
    dots.push('.');
    dots.push('.');
    assert(dots@ =~= seq!['.', '.']);
    if contains_chars(&v, &dots) {
        return Err("domain contains consecutive dots".to_owned());
    }
    let n = v.len();
    let mut i: usize = 0;
    assert(v@.skip(0) =~= v@);
    while i < n
        invariant
            n == v@.len(),
            i <= n,
            v@ == domain@,
            v@.len() > 0,
            v@.contains('.'),
            vstd::utf8::encode_utf8(v@).len() <= 253,
            !contains_seq(v@, seq!['.', '.']),
            first_bad_char(v@) == first_bad_char(v@.skip(i as int)),
        decreases n - i,
    {
        let c = v[i];
        assert(v@.skip(i as int)[0] == c);
        if !domain_char(c) {
            let mut m: Vec<char> = Vec::new();
            push_str(&mut m, "invalid character '");
            m.push(c);
            push_str(&mut m, "' in domain");
            assert(m@ =~= "invalid character '"@ + seq![c] + "' in domain"@);
            return Err(string_of(&m));
        }
        assert(v@.skip(i as int).drop_first() =~= v@.skip(i + 1));
        i = i + 1;
    }
    assert(v@.skip(n as int) =~= Seq::<char>::empty());
    let labels = split_chars(&v, '.');
    let k = labels.len();
    let mut j: usize = 0;
    assert(seq_views(labels@).skip(0) =~= seq_views(labels@));
    while j < k
        invariant
            k == labels@.len(),
            j <= k,
            v@ == domain@,
            v@.len() > 0,
            v@.contains('.'),
            vstd::utf8::encode_utf8(v@).len() <= 253,
            !contains_seq(v@, seq!['.', '.']),
            first_bad_char(v@) is None,
            seq_views(labels@) == split_on(v@, '.'),
            label_error(split_on(v@, '.')) == label_error(seq_views(labels@).skip(j as int)),
        decreases k - j,
    {
        let label = &labels[j];
        assert(seq_views(labels@).skip(j as int)[0] == label@);
        assert(seq_views(labels@).skip(j as int).len() > 0);
        if label.len() == 0 {
            return Err("domain contains an empty label".to_owned());
        }
        if label.len() > 63 {
            return Err(label_message("label '", label, "' exceeds 63 characters"));
        }
        if label[0] == '-' || label[label.len() - 1] == '-' {
            return Err(label_message("label '", label, "' starts or ends with a hyphen"));
        }
        assert(seq_views(labels@).skip(j as int).drop_first() =~= seq_views(labels@).skip(j + 1));
        j = j + 1;
    }
    assert(seq_views(labels@).skip(k as int) =~= Seq::<Seq<char>>::empty());
    Ok(())
}

// ---------------------------------------------------------------------------
// Suspicion heuristics
// ---------------------------------------------------------------------------
/// Top-level domains that are often abused.
pub open spec fn suspicious_tld_list() -> Seq<Seq<char>> {
    seq!["zip"@, "mov"@, "top"@, "xyz"@, "tk"@]
}

/// Words that phishing domains like to carry.
pub open spec fn suspicious_keyword_list() -> Seq<Seq<char>> {
    seq!["login"@, "verify"@, "secure"@, "update"@, "paypa1"@]
}

/// The last dot-separated piece of a domain (the whole domain when it has no dot).
pub open spec fn top_label(d: Seq<char>) -> Seq<char> {
    split_on(d, '.').last()
}

/// Whether the lower-cased domain carries a keyword, or the domain holds three
/// or more hyphens.
pub open spec fn spec_has_suspicious_content(d: Seq<char>, lower: Seq<char>) -> bool {
    (exists|k: int|
        0 <= k < suspicious_keyword_list().len() && contains_seq(
            lower,
            #[trigger] suspicious_keyword_list()[k],
        )) || count_char(d, '-') >= 3
}

/// Some dot-separated label of the domain carries the IDN prefix `xn--`.
pub open spec fn has_punycode_label(d: Seq<char>) -> bool {
    exists|k: int|
        0 <= k < split_on(d, '.').len() && starts_with(#[trigger] split_on(d, '.')[k], "xn--"@)
}

/// The suspicion rules: a label with the `xn--` prefix, an abused top-level
/// domain, a phishing keyword (after lower-casing), or three or more hyphens.
pub open spec fn spec_is_suspicious(d: Seq<char>) -> bool {
    has_punycode_label(d) || suspicious_tld_list().contains(top_label(d))
        || spec_has_suspicious_content(d, str_lowercase(d))
}

fn suspicious_tlds() -> (res: Vec<Vec<char>>)
    ensures
        seq_views(res@) == suspicious_tld_list(),
{
    let mut res: Vec<Vec<char>> = Vec::new();
    res.push(chars_of("zip"));
    res.push(chars_of("mov"));
    res.push(chars_of("top"));
    res.push(chars_of("xyz"));
    res.push(chars_of("tk"));
    assert(seq_views(res@) =~= suspicious_tld_list());
    res
}

fn suspicious_keywords() -> (res: Vec<Vec<char>>)
    ensures
        seq_views(res@) == suspicious_keyword_list(),
{
    let mut res: Vec<Vec<char>> = Vec::new();
    res.push(chars_of("login"));
    res.push(chars_of("verify"));
    res.push(chars_of("secure"));
    res.push(chars_of("update"));
    res.push(chars_of("paypa1"));
    assert(seq_views(res@) =~= suspicious_keyword_list());
    res
}

/// The checks that follow lower-casing: a keyword in `lower`, or three or more
/// hyphens in `domain`.
pub fn has_suspicious_content(domain: &str, lower: &str) -> (res: bool)
    ensures
        res == spec_has_suspicious_content(domain@, lower@),
{
    let lv = chars_of(lower);
    let kws = suspicious_keywords();
    let n = kws.len();
    let mut k: usize = 0;
    while k < n
        invariant
            n == kws@.len(),
            k <= n,
            lv@ == lower@,
            seq_views(kws@) == suspicious_keyword_list(),
            forall|j: int|
                0 <= j < k ==> !contains_seq(lv@, #[trigger] suspicious_keyword_list()[j]),
        decreases n - k,
    {
        let kw = &kws[k];
        assert(seq_views(kws@)[k as int] == kw@);
        if contains_chars(&lv, kw) {
            assert(contains_seq(lower@, suspicious_keyword_list()[k as int]));
            return true;
        }
        k = k + 1;
    }
    let v = chars_of(domain);
    count_chars(&v, '-') >= 3
}

/// Whether a domain matches one of the suspicion rules.
pub fn is_suspicious_domain(domain: &str) -> (res: bool)
    ensures
        res == spec_is_suspicious(domain@),
        res <==> ({
            let labels = split_on(domain@, '.');
            let tld = split_on(domain@, '.').last();
            let lower = str_lowercase(domain@);
            ||| exists|k: int| 0 <= k < labels.len() && starts_with(#[trigger] labels[k], "xn--"@)
            ||| tld == "zip"@
            ||| tld == "mov"@
            ||| tld == "top"@
            ||| tld == "xyz"@
            ||| tld == "tk"@
            ||| contains_seq(lower, "login"@)
            ||| contains_seq(lower, "verify"@)
            ||| contains_seq(lower, "secure"@)
            ||| contains_seq(lower, "update"@)
            ||| contains_seq(lower, "paypa1"@)
            ||| count_char(domain@, '-') >= 3
        }),
{
    proof {
        lemma_suspicious_rules(domain@);
    }
    let v = chars_of(domain);
    let xn = chars_of("xn--");
    let pieces = split_chars(&v, '.');
    assert(split_on(v@, '.').len() >= 1);
    let np = pieces.len();
    let mut p: usize = 0;
    while p < np
        invariant
            np == pieces@.len(),
            p <= np,
            v@ == domain@,
            xn@ == "xn--"@,
            seq_views(pieces@) == split_on(v@, '.'),
            forall|j: int| 0 <= j < p ==> !starts_with(#[trigger] split_on(v@, '.')[j], "xn--"@),
        decreases np - p,
    {
        let piece = &pieces[p];
        assert(seq_views(pieces@)[p as int] == piece@);
        if starts_with_chars(piece, &xn) {
            assert(starts_with(split_on(v@, '.')[p as int], "xn--"@));
            proof {
                lemma_suspicious_rules(domain@);
            }
            return true;
        }
        p = p + 1;
    }
    assert(!has_punycode_label(v@));
    let tld = &pieces[pieces.len() - 1];
    assert(tld@ == top_label(v@));
    let tlds = suspicious_tlds();
    let n = tlds.len();
    let mut k: usize = 0;
    while k < n
        invariant
            n == tlds@.len(),
            k <= n,
            v@ == domain@,
            seq_views(tlds@) == suspicious_tld_list(),
            tld@ == top_label(v@),
            forall|j: int| 0 <= j < k ==> suspicious_tld_list()[j] != top_label(v@),
        decreases n - k,
    {
        let candidate = &tlds[k];
        assert(seq_views(tlds@)[k as int] == candidate@);
        if chars_eq(tld, candidate) {
            assert(suspicious_tld_list()[k as int] == top_label(v@));
            proof {
                lemma_suspicious_rules(domain@);
            }
            return true;
        }
        k = k + 1;
    }
    assert(!suspicious_tld_list().contains(top_label(v@)));
    let lower = to_lowercase(domain);
    has_suspicious_content(domain, lower.as_str())
}

// ---------------------------------------------------------------------------
// CSV lines
// ---------------------------------------------------------------------------
/// The `domain,source` fields of a CSV line, each trimmed, or the complaint.
pub open spec fn parse_line(line: Seq<char>) -> Result<(Seq<char>, Seq<char>), Seq<char>> {
    let t = trim(line);
    let e = index_of(t, ',');
    if t.len() == 0 {
        Err("empty line"@)
    } else if e >= t.len() {
        Err("missing source"@)
    } else if trim(t.take(e as int)).len() == 0 {
        Err("empty domain in CSV line"@)
    } else {
        Ok((trim(t.take(e as int)), trim(t.skip((e + 1) as int))))
    }
}

/// Splits a CSV line at its first comma into a domain and a source.
pub fn parse_csv_line(line: &str) -> (res: Result<(String, String), String>)
    ensures
        match res {
            Ok((d, s)) => parse_line(line@) == Ok::<(Seq<char>, Seq<char>), Seq<char>>(
                (d@, s@),
            ),
            Err(m) => parse_line(line@) == Err::<(Seq<char>, Seq<char>), Seq<char>>(m@),
        },
{
    let t = trim_str(line);
    if t.len() == 0 {
        return Err("empty line".to_owned());
    }
    let e = find_char(&t, ',', 0);
    assert(t@.skip(0) =~= t@);
    if e >= t.len() {
        return Err("missing source".to_owned());
    }
    let dpart = subvec(&t, 0, e);
    let d = trim_chars(&dpart);
    let spart = subvec(&t, e + 1, t.len());
    let s = trim_chars(&spart);
    assert(dpart@ =~= t@.take(e as int));
    assert(spart@ =~= t@.skip(e + 1));
    if d.len() == 0 {
        return Err("empty domain in CSV line".to_owned());
    }
    Ok((string_of(&d), string_of(&s)))
}

// ---------------------------------------------------------------------------
// Whole-input triage
// ---------------------------------------------------------------------------
/// Counters and records of a run.
#[derive(Debug)]
pub struct ValidationResult {
    pub records: Vec<DomainRecord>,
    pub processed: usize,
    pub valid_count: usize,
    pub invalid_count: usize,
    pub allowlisted_count: usize,
    pub suspicious_count: usize,
}

/// The mathematical value of a `ValidationResult`.
pub struct ResultView {
    pub records: Seq<RecordView>,
    pub processed: nat,
    pub valid_count: nat,
    pub invalid_count: nat,
    pub allowlisted_count: nat,
    pub suspicious_count: nat,
}

pub open spec fn record_views(rs: Seq<DomainRecord>) -> Seq<RecordView> {
    rs.map_values(|r: DomainRecord| r@)
}

impl View for ValidationResult {
    type V = ResultView;

    open spec fn view(&self) -> ResultView {
        ResultView {
            records: record_views(self.records@),
            processed: self.processed as nat,
            valid_count: self.valid_count as nat,
            invalid_count: self.invalid_count as nat,
            allowlisted_count: self.allowlisted_count as nat,
            suspicious_count: self.suspicious_count as nat,
        }
    }
}

/// The character sequences of an allowlist.
pub open spec fn string_views(v: Seq<String>) -> Seq<Seq<char>> {
    v.map_values(|s: String| s@)
}

/// A line whose domain is valid and on the allowlist.
pub open spec fn line_allowlisted(line: Seq<char>, allow: Seq<Seq<char>>) -> bool {
    match parse_line(line) {
        Ok((d, _)) => domain_check(spec_normalize(d)) is Ok && allow.contains(spec_normalize(d)),
        Err(_) => false,
    }
}

/// The record produced for one non-blank data line.
pub open spec fn record_for(line: Seq<char>, allow: Seq<Seq<char>>) -> RecordView {
    match parse_line(line) {
        Err(e) => RecordView {
            original: line,
            normalized: None,
            source: Seq::empty(),
            status: DomainStatus::Rejected,
            reason: "malformed CSV line: "@ + e,
        },
        Ok((d, s)) => {
            let n = spec_normalize(d);
            match domain_check(n) {
                Err(e) => RecordView {
                    original: d,
                    normalized: Some(n),
                    source: s,
                    status: DomainStatus::Rejected,
                    reason: e,
                },
                Ok(_) => if allow.contains(n) {
                    RecordView {
                        original: d,
                        normalized: Some(n),
                        source: s,
                        status: DomainStatus::Accepted,
                        reason: "allowlisted"@,
                    }
                } else if spec_is_suspicious(n) {
                    RecordView {
                        original: d,
                        normalized: Some(n),
                        source: s,
                        status: DomainStatus::Suspicious,
                        reason: "suspicious pattern detected"@,
                    }
                } else {
                    RecordView {
                        original: d,
                        normalized: Some(n),
                        source: s,
                        status: DomainStatus::Accepted,
                        reason: Seq::empty(),
                    }
                },
            }
        },
    }
}

pub open spec fn empty_tally() -> ResultView {
    ResultView {
        records: Seq::empty(),
        processed: 0,
        valid_count: 0,
        invalid_count: 0,
        allowlisted_count: 0,
        suspicious_count: 0,
    }
}

/// The result of triaging the given data lines in order; blank lines are skipped.
pub open spec fn tally(lines: Seq<Seq<char>>, allow: Seq<Seq<char>>) -> ResultView
    decreases lines.len(),
{
    if lines.len() == 0 {
        empty_tally()
    } else {
        let prev = tally(lines.drop_last(), allow);
        let line = lines.last();
        if trim(line).len() == 0 {
            prev
        } else {
            let r = record_for(line, allow);
            ResultView {
                records: prev.records.push(r),
                processed: prev.processed + 1,
                valid_count: prev.valid_count + if r.status != DomainStatus::Rejected {
                    1nat
                } else {
                    0nat
                },
                invalid_count: prev.invalid_count + if r.status == DomainStatus::Rejected {
                    1nat
                } else {
                    0nat
                },
                allowlisted_count: prev.allowlisted_count + if line_allowlisted(line, allow) {
                    1nat
                } else {
                    0nat
                },
                suspicious_count: prev.suspicious_count + if r.status
                    == DomainStatus::Suspicious {
                    1nat
                } else {
                    0nat
                },
            }
        }
    }
}

/// The data lines of a CSV text: its lines after the header line.
pub open spec fn data_lines(csv: Seq<char>) -> Seq<Seq<char>> {
    let ls = lines_of(csv);
    if ls.len() == 0 {
        ls
    } else {
        ls.skip(1)
    }
}

/// The triage of a whole CSV text against an allowlist.
pub open spec fn spec_process(csv: Seq<char>, allow: Seq<Seq<char>>) -> ResultView {
    tally(data_lines(csv), allow)
}

fn allowlist_contains(allowlist: &[String], s: &String) -> (res: bool)
    ensures
        res == string_views(allowlist@).contains(s@),
{
    let n = allowlist.len();
    let mut i: usize = 0;
    while i < n
        invariant
            n == allowlist@.len(),
            i <= n,
            forall|j: int| 0 <= j < i ==> allowlist@[j]@ != s@,
        decreases n - i,
    {
        if allowlist[i] == *s {
            assert(string_views(allowlist@)[i as int] == s@);
            return true;
        }
        i = i + 1;
    }
    assert forall|j: int| 0 <= j < n implies string_views(allowlist@)[j] != s@ by {
        assert(string_views(allowlist@)[j] == allowlist@[j]@);
    }
    false
}

fn reason_text(prefix: &str, detail: &String) -> (res: String)
    ensures
        res@ == prefix@ + detail@,
{
    let mut m: Vec<char> = Vec::new();
    push_str(&mut m, prefix);
    push_str(&mut m, detail.as_str());
    assert(m@ =~= prefix@ + detail@);
    string_of(&m)
}

/// Triage of one non-blank data line: its record, and whether it was allowlisted.
fn triage_line(line: &Vec<char>, allowlist: &[String]) -> (res: (DomainRecord, bool))
    ensures
        res.0@ == record_for(line@, string_views(allowlist@)),
        res.1 == line_allowlisted(line@, string_views(allowlist@)),
{
    let text = string_of(line);
    match parse_csv_line(text.as_str()) {
        Err(e) => {
            let reason = reason_text("malformed CSV line: ", &e);
            (
                DomainRecord {
                    original: text,
                    normalized: None,
                    source: String::new(),
                    status: DomainStatus::Rejected,
                    reason,
                },
                false,
            )
        },
        Ok((domain, source)) => {
            let normalized = normalize(domain.as_str());
            match is_valid_domain(normalized.as_str()) {
                Err(e) => (
                    DomainRecord {
                        original: domain,
                        normalized: Some(normalized),
                        source,
                        status: DomainStatus::Rejected,
                        reason: e,
                    },
                    false,
                ),
                Ok(()) => {
                    if allowlist_contains(allowlist, &normalized) {
                        (
                            DomainRecord {
                                original: domain,
                                normalized: Some(normalized),
                                source,
                                status: DomainStatus::Accepted,
                                reason: "allowlisted".to_owned(),
                            },
                            true,
                        )
                    } else if is_suspicious_domain(normalized.as_str()) {
                        (
                            DomainRecord {
                                original: domain,
                                normalized: Some(normalized),
                                source,
                                status: DomainStatus::Suspicious,
                                reason: "suspicious pattern detected".to_owned(),
                            },
                            false,
                        )
                    } else {
                        (
                            DomainRecord {
                                original: domain,
                                normalized: Some(normalized),
                                source,
                                status: DomainStatus::Accepted,
                                reason: String::new(),
                            },
                            false,
                        )
                    }
                },
            }
        },
    }
}

/// Triages every data line of a CSV text (the first line is a header; blank
/// lines are skipped) against an allowlist of normalized domains.
pub fn process_input(csv_content: &str, allowlist: &[String]) -> (res: ValidationResult)
    ensures
        res@ == spec_process(csv_content@, string_views(allowlist@)),
        res.records@.len() == res.processed,
        res.processed == res.valid_count + res.invalid_count,
        res.allowlisted_count + res.suspicious_count <= res.valid_count,
        res.allowlisted_count == count_allowlisted(res@.records),
{
    let ghost allow = string_views(allowlist@);
    proof {
        lemma_process_counts(csv_content@, allow);
    }
    let cs = chars_of(csv_content);
    let lines = lines_chars(&cs);
    let mut records: Vec<DomainRecord> = Vec::new();
    let mut processed: usize = 0;
    let mut valid_count: usize = 0;
    let mut invalid_count: usize = 0;
    let mut allowlisted_count: usize = 0;
    let mut suspicious_count: usize = 0;
    let n = lines.len();
    if n == 0 {
        let res = ValidationResult {
            records,
            processed,
            valid_count,
            invalid_count,
            allowlisted_count,
            suspicious_count,
        };
        assert(res@.records =~= empty_tally().records);
        return res;
    }
    let ghost ls = seq_views(lines@);
    let mut i: usize = 1;
    assert(ls.subrange(1, 1) =~= Seq::<Seq<char>>::empty());
    assert(record_views(records@) =~= Seq::<RecordView>::empty());
    while i < n
        invariant
            n == lines@.len(),
            ls == seq_views(lines@),
            ls == lines_of(csv_content@),
            allow == string_views(allowlist@),
            1 <= i <= n,
            processed < i,
            valid_count <= processed,
            invalid_count <= processed,
            allowlisted_count <= processed,
            suspicious_count <= processed,
            (ResultView {
                records: record_views(records@),
                processed: processed as nat,
                valid_count: valid_count as nat,
                invalid_count: invalid_count as nat,
                allowlisted_count: allowlisted_count as nat,
                suspicious_count: suspicious_count as nat,
            }) == tally(ls.subrange(1, i as int), allow),
        decreases n - i,
    {
        let line = &lines[i];
        assert(ls.subrange(1, i + 1).drop_last() =~= ls.subrange(1, i as int));
        assert(ls.subrange(1, i + 1).last() == line@);
        let t = trim_chars(line);
        if t.len() > 0 {
            let (record, listed) = triage_line(line, allowlist);
            let ghost before = records@;
            let is_rejected = match record.status {
                DomainStatus::Rejected => true,
                _ => false,
            };
            let is_suspicious = match record.status {
                DomainStatus::Suspicious => true,
                _ => false,
            };
            records.push(record);
            assert(record_views(records@) =~= record_views(before).push(records@.last()@));
            processed = processed + 1;
            if is_rejected {
                invalid_count = invalid_count + 1;
            } else {
                valid_count = valid_count + 1;
            }
            if listed {
                allowlisted_count = allowlisted_count + 1;
            }
            if is_suspicious {
                suspicious_count = suspicious_count + 1;
            }
        }
        i = i + 1;
    }
    assert(ls.subrange(1, n as int) =~= ls.skip(1));
    ValidationResult {
        records,
        processed,
        valid_count,
        invalid_count,
        allowlisted_count,
        suspicious_count,
    }
}

/// The entries of an allowlist file: each line trimmed and lower-cased.
pub open spec fn spec_allowlist(content: Seq<char>) -> Seq<Seq<char>> {
    lines_of(content).map_values(|l: Seq<char>| str_lowercase(trim(l)))
}

/// Reads allowlist entries from the text of an allowlist file, one per line.
pub fn parse_allowlist(content: &str) -> (res: Vec<String>)
    ensures
        string_views(res@) == spec_allowlist(content@),
{
    let cs = chars_of(content);
    let lines = lines_chars(&cs);
    let ghost ls = seq_views(lines@);
    let n = lines.len();
    let mut res: Vec<String> = Vec::new();
    let mut i: usize = 0;
    while i < n
        invariant
            n == lines@.len(),
            ls == seq_views(lines@),
            ls == lines_of(content@),
            i <= n,
            string_views(res@) == ls.take(i as int).map_values(
                |l: Seq<char>| str_lowercase(trim(l)),
            ),
        decreases n - i,
    {
        let line = &lines[i];
        assert(ls[i as int] == line@);
        let t = trim_chars(line);
        let ts = string_of(&t);
        let entry = to_lowercase(ts.as_str());
        let ghost before = res@;
        res.push(entry);
        proof {
            let want = ls.take(i + 1).map_values(|l: Seq<char>| str_lowercase(trim(l)));
            let had = ls.take(i as int).map_values(|l: Seq<char>| str_lowercase(trim(l)));
            assert(had.len() == i);
            assert(string_views(before).len() == i);
            assert(before.len() == i);
            assert(res@ == before.push(entry));
            assert forall|j: int| 0 <= j < i + 1 implies string_views(res@)[j] == want[j] by {
                if j < i {
                    assert(string_views(res@)[j] == string_views(before)[j]);
                    assert(had[j] == want[j]);
                }
            }
            assert(string_views(res@) =~= want);
        }
        i = i + 1;
    }
    assert(ls.take(n as int) =~= ls);
    res
}

// ---------------------------------------------------------------------------
// Facts about valid domains
// ---------------------------------------------------------------------------
/// Every character of a domain without a bad character is a domain character.
pub proof fn lemma_first_bad_char_none(s: Seq<char>)
    ensures
        first_bad_char(s) is None <==> (forall|i: int| 0 <= i < s.len() ==> is_domain_char(#[trigger] s[i])),
    decreases s.len(),
{
    if s.len() > 0 {
        lemma_first_bad_char_none(s.drop_first());
        if first_bad_char(s) is None {
            assert forall|i: int| 0 <= i < s.len() implies is_domain_char(#[trigger] s[i]) by {
                if i > 0 {
                    assert(s[i] == s.drop_first()[i - 1]);
                }
            }
        } else if is_domain_char(s[0]) {
            let i = choose|i: int| 0 <= i < s.drop_first().len() && !is_domain_char(#[trigger] s.drop_first()[i]);
            assert(s[i + 1] == s.drop_first()[i]);
        }
    }
}

/// If `s` ends with `c`, the last piece of `split_on(s, c)` is empty.
pub proof fn lemma_split_last_empty(s: Seq<char>, c: char)
    requires
        s.len() > 0,
        s.last() == c,
    ensures
        split_on(s, c).last().len() == 0,
    decreases s.len(),
{
    lemma_index_of(s, c);
    let e = index_of(s, c);
    assert(e < s.len());
    let rest = s.skip((e + 1) as int);
    if rest.len() == 0 {
        assert(split_on(rest, c) == seq![rest]);
    } else {
        assert(rest.last() == s.last());
        lemma_split_last_empty(rest, c);
    }
}

/// A valid domain is non-empty, made of domain characters only, and does not end with a dot.
pub proof fn lemma_valid_domain_shape(d: Seq<char>)
    requires
        domain_check(d) is Ok,
    ensures
        d.len() > 0,
        forall|i: int| 0 <= i < d.len() ==> is_domain_char(#[trigger] d[i]),
        d.last() != '.',
{
    lemma_first_bad_char_none(d);
    if d.last() == '.' {
        lemma_split_last_empty(d, '.');
        lemma_label_error_none(split_on(d, '.'));
        assert(split_on(d, '.').len() >= 1);
        let k = split_on(d, '.').len() - 1;
        assert(!bad_label(split_on(d, '.')[k]));
    }
}

/// No complaint about the labels means that no label is bad.
pub proof fn lemma_label_error_none(labels: Seq<Seq<char>>)
    ensures
        label_error(labels) is None <==> (forall|i: int|
            0 <= i < labels.len() ==> !bad_label(#[trigger] labels[i])),
    decreases labels.len(),
{
    if labels.len() > 0 {
        lemma_label_error_none(labels.drop_first());
        if label_error(labels) is None {
            assert forall|i: int| 0 <= i < labels.len() implies !bad_label(#[trigger] labels[i]) by {
                if i > 0 {
                    assert(labels[i] == labels.drop_first()[i - 1]);
                }
            }
        } else if !bad_label(labels[0]) {
            let i = choose|i: int| 0 <= i < labels.drop_first().len() && bad_label(#[trigger] labels.drop_first()[i]);
            assert(labels[i + 1] == labels.drop_first()[i]);
        }
    }
}

// ---------------------------------------------------------------------------
// Laws of the triage
// ---------------------------------------------------------------------------
/// Number of records with the given status.
pub open spec fn count_status(rs: Seq<RecordView>, st: DomainStatus) -> nat
    decreases rs.len(),
{
    if rs.len() == 0 {
        0
    } else {
        count_status(rs.drop_last(), st) + if rs.last().status == st {
            1nat
        } else {
            0nat
        }
    }
}

/// Number of accepted records whose reason is `allowlisted`.
pub open spec fn count_allowlisted(rs: Seq<RecordView>) -> nat
    decreases rs.len(),
{
    if rs.len() == 0 {
        0
    } else {
        count_allowlisted(rs.drop_last()) + if rs.last().status == DomainStatus::Accepted
            && rs.last().reason == "allowlisted"@ {
            1nat
        } else {
            0nat
        }
    }
}

/// A line is allowlisted exactly when its record is accepted with the reason
/// `allowlisted`.
pub proof fn lemma_allowlisted_reason(line: Seq<char>, allow: Seq<Seq<char>>)
    ensures
        line_allowlisted(line, allow) <==> (record_for(line, allow).status
            == DomainStatus::Accepted && record_for(line, allow).reason == "allowlisted"@),
{
    reveal_strlit("allowlisted");
    assert(Seq::<char>::empty().len() == 0);
}

/// A valid domain found on the allowlist is accepted as allowlisted, whatever
/// the suspicion rules say of it.
pub proof fn lemma_allowlist_wins(line: Seq<char>, allow: Seq<Seq<char>>)
    requires
        line_allowlisted(line, allow),
    ensures
        record_for(line, allow).status == DomainStatus::Accepted,
        record_for(line, allow).reason == "allowlisted"@,
{
}

/// What each status of a record means: rejected records are malformed lines or
/// hold an invalid normalized domain; accepted and suspicious ones hold a valid
/// one; suspicious ones are off the allowlist and break a suspicion rule.
pub proof fn lemma_record_status(line: Seq<char>, allow: Seq<Seq<char>>)
    ensures
        ({
            let r = record_for(line, allow);
            let fields = parse_line(line)->Ok_0;
            &&& r.status == DomainStatus::Rejected <==> (parse_line(line) is Err || domain_check(
                r.normalized->0,
            ) is Err)
            &&& r.status != DomainStatus::Rejected ==> r.normalized is Some && domain_check(
                r.normalized->0,
            ) is Ok
            &&& r.status == DomainStatus::Suspicious ==> !allow.contains(r.normalized->0)
                && spec_is_suspicious(r.normalized->0)
            &&& r.normalized is Some ==> r.normalized->0 == spec_normalize(fields.0)
        }),
{
}

/// The counters agree with the records: one record per counted line, every
/// counted line valid or invalid, the invalid and suspicious counters count
/// rejected and suspicious records, and allowlisted lines are valid lines that
/// are not suspicious.
pub proof fn lemma_tally_counts(lines: Seq<Seq<char>>, allow: Seq<Seq<char>>)
    ensures
        ({
            let t = tally(lines, allow);
            &&& t.records.len() == t.processed
            &&& t.processed == t.valid_count + t.invalid_count
            &&& t.invalid_count == count_status(t.records, DomainStatus::Rejected)
            &&& t.suspicious_count == count_status(t.records, DomainStatus::Suspicious)
            &&& t.valid_count == count_status(t.records, DomainStatus::Accepted) + count_status(
                t.records,
                DomainStatus::Suspicious,
            )
            &&& t.allowlisted_count + t.suspicious_count <= t.valid_count
            &&& t.allowlisted_count == count_allowlisted(t.records)
            &&& t.processed <= lines.len()
        }),
    decreases lines.len(),
{
    if lines.len() > 0 {
        lemma_tally_counts(lines.drop_last(), allow);
        let prev = tally(lines.drop_last(), allow);
        let line = lines.last();
        if trim(line).len() != 0 {
            let t = tally(lines, allow);
            assert(t.records.drop_last() =~= prev.records);
            lemma_allowlisted_reason(line, allow);
            if line_allowlisted(line, allow) {
                lemma_allowlist_wins(line, allow);
            }
        }
    }
}

/// The same agreement for the triage of a whole CSV text.
pub proof fn lemma_process_counts(csv: Seq<char>, allow: Seq<Seq<char>>)
    ensures
        ({
            let t = spec_process(csv, allow);
            &&& t.records.len() == t.processed
            &&& t.processed == t.valid_count + t.invalid_count
            &&& t.invalid_count == count_status(t.records, DomainStatus::Rejected)
            &&& t.suspicious_count == count_status(t.records, DomainStatus::Suspicious)
            &&& t.valid_count == count_status(t.records, DomainStatus::Accepted) + count_status(
                t.records,
                DomainStatus::Suspicious,
            )
            &&& t.allowlisted_count + t.suspicious_count <= t.valid_count
            &&& t.allowlisted_count == count_allowlisted(t.records)
        }),
{
    lemma_tally_counts(data_lines(csv), allow);
}

/// Every entry of `a1` is also in `a2`.
pub open spec fn allowlist_within(a1: Seq<Seq<char>>, a2: Seq<Seq<char>>) -> bool {
    forall|x: Seq<char>| a1.contains(x) ==> a2.contains(x)
}

/// Growing the allowlist never changes which lines are counted, valid or
/// invalid, never adds a suspicious domain, and never removes an allowlisted one.
pub proof fn lemma_tally_allowlist_monotone(
    lines: Seq<Seq<char>>,
    a1: Seq<Seq<char>>,
    a2: Seq<Seq<char>>,
)
    requires
        allowlist_within(a1, a2),
    ensures
        ({
            let t1 = tally(lines, a1);
            let t2 = tally(lines, a2);
            &&& t2.records.len() == t1.records.len()
            &&& t2.processed == t1.processed
            &&& t2.valid_count == t1.valid_count
            &&& t2.invalid_count == t1.invalid_count
            &&& t2.suspicious_count <= t1.suspicious_count
            &&& t2.allowlisted_count >= t1.allowlisted_count
        }),
    decreases lines.len(),
{
    if lines.len() > 0 {
        lemma_tally_allowlist_monotone(lines.drop_last(), a1, a2);
    }
}

/// Growing the allowlist of a run: the same counted, valid and invalid lines,
/// no more suspicious domains, and no fewer allowlisted ones.
pub proof fn lemma_process_allowlist_monotone(
    csv: Seq<char>,
    a1: Seq<Seq<char>>,
    a2: Seq<Seq<char>>,
)
    requires
        allowlist_within(a1, a2),
    ensures
        ({
            let t1 = spec_process(csv, a1);
            let t2 = spec_process(csv, a2);
            &&& t2.records.len() == t1.records.len()
            &&& t2.processed == t1.processed
            &&& t2.valid_count == t1.valid_count
            &&& t2.invalid_count == t1.invalid_count
            &&& t2.suspicious_count <= t1.suspicious_count
            &&& t2.allowlisted_count >= t1.allowlisted_count
        }),
{
    lemma_tally_allowlist_monotone(data_lines(csv), a1, a2);
}

/// The lines that are not blank (not empty once trimmed), in order.
pub open spec fn non_blank(lines: Seq<Seq<char>>) -> Seq<Seq<char>>
    decreases lines.len(),
{
    if lines.len() == 0 {
        Seq::empty()
    } else if trim(lines.last()).len() == 0 {
        non_blank(lines.drop_last())
    } else {
        non_blank(lines.drop_last()).push(lines.last())
    }
}

/// Blank lines do not matter: the triage of some lines is that of their
/// non-blank lines.
pub proof fn lemma_tally_non_blank(lines: Seq<Seq<char>>, allow: Seq<Seq<char>>)
    ensures
        tally(lines, allow) == tally(non_blank(lines), allow),
    decreases lines.len(),
{
    if lines.len() > 0 {
        lemma_tally_non_blank(lines.drop_last(), allow);
        let nb = non_blank(lines);
        if trim(lines.last()).len() != 0 {
            assert(nb.drop_last() =~= non_blank(lines.drop_last()));
            assert(nb.last() == lines.last());
        }
    }
}

/// Two inputs with the same non-blank data lines give the same result.
pub proof fn lemma_process_same_data(csv1: Seq<char>, csv2: Seq<char>, allow: Seq<Seq<char>>)
    requires
        non_blank(data_lines(csv1)) == non_blank(data_lines(csv2)),
    ensures
        spec_process(csv1, allow) == spec_process(csv2, allow),
{
    lemma_tally_non_blank(data_lines(csv1), allow);
    lemma_tally_non_blank(data_lines(csv2), allow);
}

/// Each record of a triage is the record of one of its data lines, and the
/// records come in the order of their lines.
pub proof fn lemma_tally_records(lines: Seq<Seq<char>>, allow: Seq<Seq<char>>, i: int)
    requires
        0 <= i < tally(lines, allow).records.len(),
    ensures
        exists|j: int|
            0 <= j < lines.len() && trim(lines[j]).len() > 0 && tally(lines, allow).records[i]
                == record_for(#[trigger] lines[j], allow),
    decreases lines.len(),
{
    lemma_tally_counts(lines, allow);
    let prev = tally(lines.drop_last(), allow);
    let line = lines.last();
    if trim(line).len() != 0 && i == prev.records.len() {
        assert(lines[lines.len() - 1] == line);
    } else {
        lemma_tally_counts(lines.drop_last(), allow);
        lemma_tally_records(lines.drop_last(), allow, i);
        let j = choose|j: int|
            0 <= j < lines.drop_last().len() && trim(lines.drop_last()[j]).len() > 0
                && prev.records[i] == record_for(#[trigger] lines.drop_last()[j], allow);
        assert(lines[j] == lines.drop_last()[j]);
    }
}

// ---------------------------------------------------------------------------
// Laws stated with the literal rule sets
// ---------------------------------------------------------------------------
/// A valid domain holds only ASCII lower-case letters, digits, dots and hyphens.
pub proof fn lemma_valid_domain_chars(d: Seq<char>)
    requires
        domain_check(d) is Ok,
    ensures
        forall|i: int|
            0 <= i < d.len() ==> ('a' <= #[trigger] d[i] && d[i] <= 'z') || ('0' <= d[i] && d[i]
                <= '9') || d[i] == '.' || d[i] == '-',
{
    lemma_valid_domain_shape(d);
}

/// `first_bad_char` finds the first character outside the domain alphabet.
proof fn lemma_first_bad_char_at(s: Seq<char>, i: int)
    requires
        0 <= i < s.len(),
        !is_domain_char(s[i]),
        forall|j: int| 0 <= j < i ==> is_domain_char(#[trigger] s[j]),
    ensures
        first_bad_char(s) == Some(s[i]),
    decreases i,
{
    if i > 0 {
        assert forall|j: int| 0 <= j < i - 1 implies is_domain_char(#[trigger] s.drop_first()[j]) by {
            assert(s.drop_first()[j] == s[j + 1]);
        }
        assert(is_domain_char(s[0]));
        lemma_first_bad_char_at(s.drop_first(), i - 1);
    }
}

/// A domain that is non-empty, has a dot, fits in 253 bytes and has no
/// consecutive dots, but holds a character other than `a`-`z`, `0`-`9`, `.`
/// and `-`, is rejected with a complaint naming the first such character.
pub proof fn lemma_invalid_char_rejected(d: Seq<char>, i: int)
    requires
        d.len() > 0,
        d.contains('.'),
        vstd::utf8::encode_utf8(d).len() <= 253,
        !contains_seq(d, seq!['.', '.']),
        0 <= i < d.len(),
        !(('a' <= d[i] && d[i] <= 'z') || ('0' <= d[i] && d[i] <= '9') || d[i] == '.' || d[i]
            == '-'),
        forall|j: int|
            0 <= j < i ==> ('a' <= #[trigger] d[j] && d[j] <= 'z') || ('0' <= d[j] && d[j] <= '9')
                || d[j] == '.' || d[j] == '-',
    ensures
        domain_check(d) == Err::<(), Seq<char>>(
            "invalid character '"@ + seq![d[i]] + "' in domain"@,
        ),
{
    lemma_first_bad_char_at(d, i);
}

/// Any character outside `a`-`z`, `0`-`9`, `.` and `-` makes a domain invalid.
pub proof fn lemma_foreign_char_invalid(d: Seq<char>, i: int)
    requires
        0 <= i < d.len(),
        !(('a' <= d[i] && d[i] <= 'z') || ('0' <= d[i] && d[i] <= '9') || d[i] == '.' || d[i]
            == '-'),
    ensures
        domain_check(d) is Err,
{
    if domain_check(d) is Ok {
        lemma_valid_domain_chars(d);
    }
}

/// The suspicion rules written out with their literal words: some label starts
/// with `xn--`; the last label is `zip`, `mov`, `top`, `xyz` or `tk`; the
/// lower-cased domain contains `login`, `verify`, `secure`, `update` or
/// `paypa1`; or the domain holds three or more hyphens.
pub proof fn lemma_suspicious_rules(d: Seq<char>)
    ensures
        spec_is_suspicious(d) <==> ({
            let labels = split_on(d, '.');
            let tld = split_on(d, '.').last();
            let lower = str_lowercase(d);
            ||| exists|k: int| 0 <= k < labels.len() && starts_with(#[trigger] labels[k], "xn--"@)
            ||| tld == "zip"@
            ||| tld == "mov"@
            ||| tld == "top"@
            ||| tld == "xyz"@
            ||| tld == "tk"@
            ||| contains_seq(lower, "login"@)
            ||| contains_seq(lower, "verify"@)
            ||| contains_seq(lower, "secure"@)
            ||| contains_seq(lower, "update"@)
            ||| contains_seq(lower, "paypa1"@)
            ||| count_char(d, '-') >= 3
        }),
{
    let tld = top_label(d);
    let tl = suspicious_tld_list();
    let kl = suspicious_keyword_list();
    let lower = str_lowercase(d);
    if tl.contains(tld) {
        let i = choose|i: int| 0 <= i < tl.len() && tl[i] == tld;
        assert(i == 0 || i == 1 || i == 2 || i == 3 || i == 4);
    }
    if tld == "zip"@ {
        assert(tl[0] == tld);
    }
    if tld == "mov"@ {
        assert(tl[1] == tld);
    }
    if tld == "top"@ {
        assert(tl[2] == tld);
    }
    if tld == "xyz"@ {
        assert(tl[3] == tld);
    }
    if tld == "tk"@ {
        assert(tl[4] == tld);
    }
    if exists|k: int| 0 <= k < kl.len() && contains_seq(lower, #[trigger] kl[k]) {
        let k = choose|k: int| 0 <= k < kl.len() && contains_seq(lower, #[trigger] kl[k]);
        assert(k == 0 || k == 1 || k == 2 || k == 3 || k == 4);
    }
    if contains_seq(lower, "login"@) {
        assert(contains_seq(lower, kl[0]));
    }
    if contains_seq(lower, "verify"@) {
        assert(contains_seq(lower, kl[1]));
    }
    if contains_seq(lower, "secure"@) {
        assert(contains_seq(lower, kl[2]));
    }
    if contains_seq(lower, "update"@) {
        assert(contains_seq(lower, kl[3]));
    }
    if contains_seq(lower, "paypa1"@) {
        assert(contains_seq(lower, kl[4]));
    }
}

/// A line gets the status `Suspicious` exactly when it parses, its normalized
/// domain is valid, that domain is not on the allowlist, and the suspicion
/// rules hold of that domain.
pub proof fn lemma_suspicious_status(line: Seq<char>, allow: Seq<Seq<char>>)
    ensures
        record_for(line, allow).status == DomainStatus::Suspicious <==> ({
            let parsed = parse_line(line);
            let fields = parsed->Ok_0;
            let n = spec_normalize(fields.0);
            &&& parsed is Ok
            &&& domain_check(n) is Ok
            &&& !allow.contains(n)
            &&& spec_is_suspicious(n)
        }),
{
}

/// The domain syntax rules with the literal alphabet: a domain is invalid
/// exactly when it is empty, has no dot, is longer than 253 bytes, has two
/// dots in a row, holds a character other than `a`-`z`, `0`-`9`, `.` and `-`,
/// or has a label that is empty, longer than 63 characters, or starts or ends
/// with `-`.
pub proof fn lemma_domain_rules_literal(d: Seq<char>)
    ensures
        domain_check(d) is Err <==> ({
            let labels = split_on(d, '.');
            ||| d.len() == 0
            ||| !d.contains('.')
            ||| vstd::utf8::encode_utf8(d).len() > 253
            ||| exists|i: int| 0 <= i < d.len() - 1 && d[i] == '.' && #[trigger] d[i + 1] == '.'
            ||| exists|i: int|
                0 <= i < d.len() && !(('a' <= #[trigger] d[i] && d[i] <= 'z') || ('0' <= d[i]
                    && d[i] <= '9') || d[i] == '.' || d[i] == '-')
            ||| exists|k: int|
                0 <= k < labels.len() && (#[trigger] labels[k].len() == 0 || labels[k].len() > 63
                    || labels[k][0] == '-' || labels[k].last() == '-')
        }),
{
    lemma_domain_check_rules(d);
    let dd = seq!['.', '.'];
    if contains_seq(d, dd) {
        let i = choose|i: int| occurs_at(d, dd, i);
        assert(d.subrange(i, i + 2)[0] == d[i]);
        assert(d.subrange(i, i + 2)[1] == d[i + 1]);
    }
    if exists|i: int| 0 <= i < d.len() - 1 && d[i] == '.' && #[trigger] d[i + 1] == '.' {
        let i = choose|i: int| 0 <= i < d.len() - 1 && d[i] == '.' && #[trigger] d[i + 1] == '.';
        assert(d.subrange(i, i + 2) =~= dd);
        assert(occurs_at(d, dd, i));
    }
    let labels = split_on(d, '.');
    if exists|k: int| 0 <= k < labels.len() && bad_label(#[trigger] labels[k]) {
        let k = choose|k: int| 0 <= k < labels.len() && bad_label(#[trigger] labels[k]);
        assert(labels[k].len() == 0 || labels[k].len() > 63 || labels[k][0] == '-'
            || labels[k].last() == '-');
    }
    if exists|k: int|
        0 <= k < labels.len() && (#[trigger] labels[k].len() == 0 || labels[k].len() > 63
            || labels[k][0] == '-' || labels[k].last() == '-') {
        let k = choose|k: int|
            0 <= k < labels.len() && (#[trigger] labels[k].len() == 0 || labels[k].len() > 63
                || labels[k][0] == '-' || labels[k].last() == '-');
        assert(bad_label(labels[k]));
    }
}

/// The complaints in the order the rules are checked, with their literal texts.
pub proof fn lemma_domain_messages(d: Seq<char>)
    ensures
        d.len() == 0 ==> domain_check(d) == Err::<(), Seq<char>>("domain is empty"@),
        d.len() > 0 && !d.contains('.') ==> domain_check(d) == Err::<(), Seq<char>>(
            "domain has no dot"@,
        ),
        d.len() > 0 && d.contains('.') && vstd::utf8::encode_utf8(d).len() > 253 ==> domain_check(
            d,
        ) == Err::<(), Seq<char>>("domain length exceeds 253 characters"@),
        d.len() > 0 && d.contains('.') && vstd::utf8::encode_utf8(d).len() <= 253 && contains_seq(
            d,
            seq!['.', '.'],
        ) ==> domain_check(d) == Err::<(), Seq<char>>("domain contains consecutive dots"@),
{
}

/// The fields of the record of a line, with the literal reasons: a line that
/// does not parse keeps the raw line and is rejected as a malformed CSV line;
/// an invalid normalized domain is rejected with its complaint; a valid one is
/// accepted as `allowlisted` when listed, else flagged with `suspicious pattern
/// detected` when suspicious, else accepted with an empty reason.
pub proof fn lemma_record_fields(line: Seq<char>, allow: Seq<Seq<char>>)
    ensures
        ({
            let r = record_for(line, allow);
            match parse_line(line) {
                Err(e) => r.original == line && r.normalized is None && r.source.len() == 0
                    && r.status == DomainStatus::Rejected && r.reason == "malformed CSV line: "@ + e,
                Ok(fields) => {
                    let n = spec_normalize(fields.0);
                    &&& r.original == fields.0
                    &&& r.normalized == Some(n)
                    &&& r.source == fields.1
                    &&& domain_check(n) is Err ==> r.status == DomainStatus::Rejected && Err::<
                        (),
                        Seq<char>,
                    >(r.reason) == domain_check(n)
                    &&& domain_check(n) is Ok && allow.contains(n) ==> r.status
                        == DomainStatus::Accepted && r.reason == "allowlisted"@
                    &&& domain_check(n) is Ok && !allow.contains(n) && spec_is_suspicious(n)
                        ==> r.status == DomainStatus::Suspicious && r.reason
                        == "suspicious pattern detected"@
                    &&& domain_check(n) is Ok && !allow.contains(n) && !spec_is_suspicious(n)
                        ==> r.status == DomainStatus::Accepted && r.reason.len() == 0
                },
            }
        }),
{
}

/// A parsed line gives a non-empty domain without commas and a source, both
/// trimmed: the text before and after the first comma of the trimmed line.
pub proof fn lemma_parse_line_fields(line: Seq<char>)
    ensures
        parse_line(line) is Ok ==> ({
            let t = trim(line);
            let fields = parse_line(line)->Ok_0;
            exists|i: int|
                0 <= i < t.len() && #[trigger] t[i] == ',' && !t.take(i).contains(',')
                    && fields.0 == trim(t.take(i)) && fields.1 == trim(t.skip(i + 1))
                    && fields.0.len() > 0 && !fields.0.contains(',') && trim(fields.0) == fields.0
                    && trim(fields.1) == fields.1
        }),
        trim(line).len() == 0 ==> parse_line(line) == Err::<(Seq<char>, Seq<char>), Seq<char>>(
            "empty line"@,
        ),
        trim(line).len() > 0 && !trim(line).contains(',') ==> parse_line(line) == Err::<
            (Seq<char>, Seq<char>),
            Seq<char>,
        >("missing source"@),
{
    let t = trim(line);
    lemma_index_of(t, ',');
    if parse_line(line) is Ok {
        let i = index_of(t, ',') as int;
        let raw = t.take(i);
        lemma_trim(raw);
        lemma_trim(t.skip(i + 1));
        assert(!raw.contains(',')) by {
            assert forall|k: int| 0 <= k < raw.len() implies raw[k] != ',' by {
                assert(raw[k] == t[k]);
            }
        }
        let d = trim(raw);
        let (a, b) = choose|a: int, b: int| 0 <= a <= b <= raw.len() && d == raw.subrange(a, b);
        assert forall|k: int| 0 <= k < d.len() implies d[k] != ',' by {
            assert(d[k] == raw[a + k]);
        }
        assert(t[i] == ',');
    }
}

/// The first line of a CSV text is its header and is never triaged: the data
/// lines of `header \n rest` are the lines of `rest`.
pub proof fn lemma_header_skipped(header: Seq<char>, rest: Seq<char>)
    requires
        !header.contains('\n'),
    ensures
        data_lines(header + seq!['\n'] + rest) == lines_of(rest),
{
    lemma_lines_of_first(header, rest);
    let ls = lines_of(header + seq!['\n'] + rest);
    assert(ls.skip(1) =~= lines_of(rest));
}

} // verus!
