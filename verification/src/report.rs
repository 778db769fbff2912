//! The text of the report: CSV escaping, the rows of the three CSV files, the
//! CSV documents, and the summary.
use vstd::prelude::*;

use crate::domain::{DomainRecord, DomainStatus, RecordView};
use crate::text::{
    chars_of, lemma_index_of_unique, lemma_split_on_first, push_str, split_on, string_of,
};
use crate::validate::{
    ResultView, ValidationResult, count_status, lemma_process_counts, spec_process,
};

verus! {

broadcast use vstd::std_specs::vec::group_vec_axioms;

// ---------------------------------------------------------------------------
// CSV escaping
// ---------------------------------------------------------------------------
/// A field that holds a comma, a double quote or a newline must be quoted.
pub open spec fn needs_quoting(v: Seq<char>) -> bool {
    v.contains(',') || v.contains('"') || v.contains('\n')
}

/// The characters of one field character inside a quoted field.
pub open spec fn quoted_char(c: char) -> Seq<char> {
    if c == '"' {
        seq!['"', '"']
    } else {
        seq![c]
    }
}

/// `v` with every double quote doubled.
pub open spec fn double_quotes(v: Seq<char>) -> Seq<char>
    decreases v.len(),
{
    if v.len() == 0 {
        Seq::empty()
    } else {
        quoted_char(v[0]) + double_quotes(v.drop_first())
    }
}

/// A CSV field: the value itself, or the value quoted with inner quotes doubled.
pub open spec fn spec_escape(v: Seq<char>) -> Seq<char> {
    if needs_quoting(v) {
        seq!['"'] + double_quotes(v) + seq!['"']
    } else {
        v
    }
}

/// Undoes quote doubling: each pair of double quotes becomes one.
pub open spec fn undouble_quotes(s: Seq<char>) -> Seq<char>
    decreases s.len(),
{
    if s.len() == 0 {
        Seq::empty()
    } else if s.len() >= 2 && s[0] == '"' && s[1] == '"' {
        seq!['"'] + undouble_quotes(s.skip(2))
    } else {
        seq![s[0]] + undouble_quotes(s.drop_first())
    }
}

/// How a CSV reader recovers a field value from its text.
pub open spec fn spec_unescape(s: Seq<char>) -> Seq<char> {
    if s.len() >= 2 && s[0] == '"' && s.last() == '"' {
        undouble_quotes(s.subrange(1, s.len() - 1))
    } else {
        s
    }
}

/// Quotes a field for CSV output when it holds a comma, a double quote or a newline.
pub fn escape_csv(value: &str) -> (res: String)
    ensures
        res@ == spec_escape(value@),
        (value@.contains(',') || value@.contains('"') || value@.contains('\n')) ==> res@.len() >= 2
            && res@[0] == '"' && res@.last() == '"' && spec_unescape(res@) == value@,
        !(value@.contains(',') || value@.contains('"') || value@.contains('\n')) ==> res@
            == value@,
{
    proof {
        lemma_escape_quoting(value@);
    }
    let v = chars_of(value);
    let special = crate::text::contains_char(&v, ',') || crate::text::contains_char(&v, '"')
        || crate::text::contains_char(&v, '\n');
    if !special {
        return string_of(&v);
    }
    let n = v.len();
    let mut out: Vec<char> = Vec::new();
    out.push('"');
    let mut i: usize = 0;
    assert(v@.skip(0) =~= v@);
    while i < n
        invariant
            n == v@.len(),
            i <= n,
            out@ + double_quotes(v@.skip(i as int)) == seq!['"'] + double_quotes(v@),
        decreases n - i,
    {
        let ghost before = out@;
        let c = v[i];
        assert(v@.skip(i as int).drop_first() =~= v@.skip(i + 1));
        assert(v@.skip(i as int)[0] == c);
        if c == '"' {
            out.push('"');
            out.push('"');
        } else {
            out.push(c);
        }
        assert(out@ =~= before + quoted_char(c));
        assert(out@ + double_quotes(v@.skip(i + 1)) =~= before + double_quotes(v@.skip(i as int)));
        i = i + 1;
    }
    assert(v@.skip(n as int) =~= Seq::<char>::empty());
    out.push('"');
    assert(out@ =~= seq!['"'] + double_quotes(v@) + seq!['"']);
    string_of(&out)
}

/// Undoing quote doubling gives the value back.
pub proof fn lemma_undouble_double(v: Seq<char>)
    ensures
        undouble_quotes(double_quotes(v)) == v,
    decreases v.len(),
{
    if v.len() > 0 {
        lemma_undouble_double(v.drop_first());
        let d = double_quotes(v);
        let rest = double_quotes(v.drop_first());
        if v[0] == '"' {
            assert(d.skip(2) =~= rest);
        } else {
            assert(d.drop_first() =~= rest);
        }
        assert(v =~= seq![v[0]] + v.drop_first());
    }
}

/// A field is quoted exactly when it holds a comma, a double quote or a
/// newline: then it starts and ends with `"` and reads back as the value;
/// otherwise it is the value itself.
pub proof fn lemma_escape_quoting(v: Seq<char>)
    ensures
        (v.contains(',') || v.contains('"') || v.contains('\n')) ==> ({
            let e = spec_escape(v);
            &&& e.len() >= 2
            &&& e[0] == '"'
            &&& e.last() == '"'
            &&& spec_unescape(e) == v
        }),
        !(v.contains(',') || v.contains('"') || v.contains('\n')) ==> spec_escape(v) == v,
{
    lemma_escape_roundtrip(v);
}

/// A value without special characters does not begin with a double quote.
proof fn lemma_plain_not_quoted(v: Seq<char>)
    requires
        !needs_quoting(v),
        v.len() > 0,
    ensures
        v[0] != '"',
{
    if v[0] == '"' {
        assert(v.contains('"'));
    }
}

/// Reading back an escaped field gives the original value: escaping loses nothing,
/// so distinct values never share a CSV field.
pub proof fn lemma_escape_roundtrip(v: Seq<char>)
    ensures
        spec_unescape(spec_escape(v)) == v,
{
    if needs_quoting(v) {
        let e = spec_escape(v);
        assert(e.subrange(1, e.len() - 1) =~= double_quotes(v));
        lemma_undouble_double(v);
    } else if v.len() >= 2 {
        lemma_plain_not_quoted(v);
    }
}

// ---------------------------------------------------------------------------
// Report rows
// ---------------------------------------------------------------------------
/// The normalized domain of a record, falling back to its original value.
pub open spec fn shown_domain(r: RecordView) -> Seq<char> {
    match r.normalized {
        Some(n) => n,
        None => r.original,
    }
}

/// One line of a report CSV: `domain,source,status,reason`, each field escaped.
pub open spec fn row_text(domain: Seq<char>, source: Seq<char>, status: Seq<char>, reason: Seq<char>) -> Seq<char> {
    spec_escape(domain) + seq![','] + spec_escape(source) + seq![','] + status + seq![','] + spec_escape(reason)
}

/// The row of a record in the report file of its status.
pub open spec fn spec_row(r: RecordView) -> Seq<char> {
    match r.status {
        DomainStatus::Accepted => row_text(
            shown_domain(r),
            r.source,
            "accepted"@,
            if r.reason.len() == 0 {
                "valid"@
            } else {
                r.reason
            },
        ),
        DomainStatus::Suspicious => row_text(shown_domain(r), r.source, "suspicious"@, r.reason),
        DomainStatus::Rejected => row_text(r.original, r.source, "rejected"@, r.reason),
    }
}

/// The rows, in record order, of the records with the given status.
pub open spec fn rows_with(records: Seq<RecordView>, status: DomainStatus) -> Seq<Seq<char>>
    decreases records.len(),
{
    if records.len() == 0 {
        Seq::empty()
    } else {
        let prev = rows_with(records.drop_last(), status);
        if records.last().status == status {
            prev.push(spec_row(records.last()))
        } else {
            prev
        }
    }
}

/// The rows of the three report files.
pub struct ReportRows {
    pub accepted: Vec<String>,
    pub suspicious: Vec<String>,
    pub rejected: Vec<String>,
}

pub open spec fn strings_view(v: Seq<String>) -> Seq<Seq<char>> {
    v.map_values(|s: String| s@)
}

fn row_of(
    domain: &str,
    source: &str,
    status: &str,
    reason: &str,
) -> (res: String)
    ensures
        res@ == row_text(domain@, source@, status@, reason@),
{
    let mut m: Vec<char> = Vec::new();
    let d = escape_csv(domain);
    push_str(&mut m, d.as_str());
    m.push(',');
    let s = escape_csv(source);
    push_str(&mut m, s.as_str());
    m.push(',');
    push_str(&mut m, status);
    m.push(',');
    let r = escape_csv(reason);
    push_str(&mut m, r.as_str());
    assert(m@ =~= row_text(domain@, source@, status@, reason@));
    string_of(&m)
}

/// The report row of one record.
pub fn record_row(record: &DomainRecord) -> (res: String)
    ensures
        res@ == spec_row(record@),
        record@.status == DomainStatus::Accepted && record@.reason.len() == 0 ==> res@
            == spec_escape(shown_domain(record@)) + seq![','] + spec_escape(record@.source) + seq![
            ',',
        ] + "accepted"@ + seq![','] + spec_escape("valid"@),
        record@.status == DomainStatus::Accepted && record@.reason.len() > 0 ==> res@
            == spec_escape(shown_domain(record@)) + seq![','] + spec_escape(record@.source) + seq![
            ',',
        ] + "accepted"@ + seq![','] + spec_escape(record@.reason),
        record@.status == DomainStatus::Suspicious ==> res@ == spec_escape(shown_domain(record@))
            + seq![','] + spec_escape(record@.source) + seq![','] + "suspicious"@ + seq![',']
            + spec_escape(record@.reason),
        record@.status == DomainStatus::Rejected ==> res@ == spec_escape(record@.original) + seq![
            ',',
        ] + spec_escape(record@.source) + seq![','] + "rejected"@ + seq![','] + spec_escape(
            record@.reason,
        ),
        record@.status != DomainStatus::Rejected && record@.normalized is Some ==> res@.take(
            (spec_escape(record@.normalized->0).len() + 1) as int,
        ) == spec_escape(record@.normalized->0).push(','),
        record@.status == DomainStatus::Rejected ==> res@.take(
            (spec_escape(record@.original).len() + 1) as int,
        ) == spec_escape(record@.original).push(','),
{
    proof {
        lemma_row_first_field(record@);
        lemma_row_fields(record@);
    }
    let shown = match &record.normalized {
        Some(n) => n.as_str(),
        None => record.original.as_str(),
    };
    match record.status {
        DomainStatus::Accepted => {
            if record.reason.as_str().is_empty() {
                row_of(shown, record.source.as_str(), "accepted", "valid")
            } else {
                row_of(shown, record.source.as_str(), "accepted", record.reason.as_str())
            }
        },
        DomainStatus::Suspicious => row_of(
            shown,
            record.source.as_str(),
            "suspicious",
            record.reason.as_str(),
        ),
        DomainStatus::Rejected => row_of(
            record.original.as_str(),
            record.source.as_str(),
            "rejected",
            record.reason.as_str(),
        ),
    }
}

/// Sorts the records of a run into the rows of the accepted, suspicious and
/// rejected report files, keeping their order.
pub fn report_rows(result: &ValidationResult) -> (res: ReportRows)
    ensures
        strings_view(res.accepted@) == rows_with(result@.records, DomainStatus::Accepted),
        strings_view(res.suspicious@) == rows_with(result@.records, DomainStatus::Suspicious),
        strings_view(res.rejected@) == rows_with(result@.records, DomainStatus::Rejected),
{
    let ghost rs = result@.records;
    let mut accepted: Vec<String> = Vec::new();
    let mut suspicious: Vec<String> = Vec::new();
    let mut rejected: Vec<String> = Vec::new();
    let n = result.records.len();
    let mut i: usize = 0;
    assert(rs.take(0) =~= Seq::<RecordView>::empty());
    assert(strings_view(accepted@) =~= Seq::<Seq<char>>::empty());
    assert(strings_view(suspicious@) =~= Seq::<Seq<char>>::empty());
    assert(strings_view(rejected@) =~= Seq::<Seq<char>>::empty());
    while i < n
        invariant
            n == result.records@.len(),
            rs == result@.records,
            i <= n,
            strings_view(accepted@) == rows_with(rs.take(i as int), DomainStatus::Accepted),
            strings_view(suspicious@) == rows_with(rs.take(i as int), DomainStatus::Suspicious),
            strings_view(rejected@) == rows_with(rs.take(i as int), DomainStatus::Rejected),
        decreases n - i,
    {
        let record = &result.records[i];
        assert(rs.take(i + 1).drop_last() =~= rs.take(i as int));
        assert(rs.take(i + 1).last() == record@);
        let row = record_row(record);
        let ghost (a0, s0, r0) = (accepted@, suspicious@, rejected@);
        match record.status {
            DomainStatus::Accepted => {
                accepted.push(row);
                assert(strings_view(accepted@) =~= strings_view(a0).push(row@));
            },
            DomainStatus::Suspicious => {
                suspicious.push(row);
                assert(strings_view(suspicious@) =~= strings_view(s0).push(row@));
            },
            DomainStatus::Rejected => {
                rejected.push(row);
                assert(strings_view(rejected@) =~= strings_view(r0).push(row@));
            },
        }
        i = i + 1;
    }
    assert(rs.take(n as int) =~= rs);
    ReportRows { accepted, suspicious, rejected }
}

// ---------------------------------------------------------------------------
// Documents
// ---------------------------------------------------------------------------
/// Lines joined, each followed by a newline.
pub open spec fn lines_text(rows: Seq<Seq<char>>) -> Seq<char>
    decreases rows.len(),
{
    if rows.len() == 0 {
        Seq::empty()
    } else {
        lines_text(rows.drop_last()) + rows.last() + seq!['\n']
    }
}

/// A CSV file: the header line followed by one line per row.
pub open spec fn spec_csv_document(header: Seq<char>, rows: Seq<Seq<char>>) -> Seq<char> {
    header + seq!['\n'] + lines_text(rows)
}

/// The text of a CSV file: the header line, then each row on a line of its own.
pub fn csv_document(header: &str, rows: &Vec<String>) -> (res: String)
    ensures
        res@ == spec_csv_document(header@, strings_view(rows@)),
        !header@.contains('\n') && (forall|k: int|
            0 <= k < rows@.len() ==> !(#[trigger] rows@[k])@.contains('\n')) ==> split_on(
            res@,
            '\n',
        ) == seq![header@] + strings_view(rows@) + seq![Seq::<char>::empty()],
{
    proof {
        let rv = strings_view(rows@);
        if !header@.contains('\n') && (forall|k: int|
            0 <= k < rows@.len() ==> !(#[trigger] rows@[k])@.contains('\n')) {
            assert forall|k: int| 0 <= k < rv.len() implies !(#[trigger] rv[k]).contains('\n') by {
                assert(rv[k] == rows@[k]@);
            }
            lemma_csv_document_lines(header@, rv);
        }
    }
    let ghost rv = strings_view(rows@);
    let mut m: Vec<char> = Vec::new();
    push_str(&mut m, header);
    m.push('\n');
    let n = rows.len();
    let mut i: usize = 0;
    assert(rv.take(0) =~= Seq::<Seq<char>>::empty());
    while i < n
        invariant
            n == rows@.len(),
            rv == strings_view(rows@),
            i <= n,
            m@ == header@ + seq!['\n'] + lines_text(rv.take(i as int)),
        decreases n - i,
    {
        let row = &rows[i];
        assert(rv.take(i + 1).drop_last() =~= rv.take(i as int));
        assert(rv.take(i + 1).last() == row@);
        push_str(&mut m, row.as_str());
        m.push('\n');
        assert(m@ =~= header@ + seq!['\n'] + lines_text(rv.take(i + 1)));
        i = i + 1;
    }
    assert(rv.take(n as int) =~= rv);
    string_of(&m)
}

/// The decimal digit for `d < 10`.
pub open spec fn digit(d: nat) -> char {
    (48 + d) as char
}

/// The decimal numeral of `n`, without leading zeros.
pub open spec fn decimal(n: nat) -> Seq<char>
    decreases n,
{
    if n < 10 {
        seq![digit(n)]
    } else {
        decimal(n / 10).push(digit(n % 10))
    }
}

/// Appends the decimal numeral of `n`.
pub fn push_decimal(out: &mut Vec<char>, n: usize)
    ensures
        final(out)@ == old(out)@ + decimal(n as nat),
    decreases n,
{
    if n >= 10 {
        push_decimal(out, n / 10);
    }
    let d = (n % 10) as u8;
    let c = (48u8 + d) as char;
    assert(c == digit((n % 10) as nat));
    out.push(c);
    assert(out@ =~= old(out)@ + decimal(n as nat));
}

/// The number of `=` characters under the summary title.
pub open spec fn rule_width() -> nat {
    30
}

/// A line of text followed by a newline.
pub open spec fn text_line(s: Seq<char>) -> Seq<char> {
    s + seq!['\n']
}

/// The summary file of a run.
pub open spec fn spec_summary(r: ResultView) -> Seq<char> {
    text_line("IOCGuard Report Summary"@) + text_line(Seq::new(rule_width(), |_i: int| '='))
        + text_line("Total lines processed: "@ + decimal(r.processed)) + text_line(
        "Valid domains:       "@ + decimal(r.valid_count),
    ) + text_line("Invalid domains:     "@ + decimal(r.invalid_count)) + text_line(
        "Allowlisted domains: "@ + decimal(r.allowlisted_count),
    ) + text_line("Suspicious domains:  "@ + decimal(r.suspicious_count))
}

fn push_count_line(m: &mut Vec<char>, label: &str, n: usize)
    ensures
        final(m)@ == old(m)@ + text_line(label@ + decimal(n as nat)),
{
    push_str(m, label);
    push_decimal(m, n);
    m.push('\n');
    assert(final(m)@ =~= old(m)@ + text_line(label@ + decimal(n as nat)));
}

/// The text of the summary file: title, rule, and the five counters.
pub fn summary_text(result: &ValidationResult) -> (res: String)
    ensures
        res@ == spec_summary(result@),
        split_on(res@, '\n') == seq![
            "IOCGuard Report Summary"@,
            Seq::new(30, |_i: int| '='),
            "Total lines processed: "@ + decimal(result.processed as nat),
            "Valid domains:       "@ + decimal(result.valid_count as nat),
            "Invalid domains:     "@ + decimal(result.invalid_count as nat),
            "Allowlisted domains: "@ + decimal(result.allowlisted_count as nat),
            "Suspicious domains:  "@ + decimal(result.suspicious_count as nat),
            Seq::<char>::empty(),
        ],
{
    proof {
        lemma_summary_lines(result@);
    }
    let mut m: Vec<char> = Vec::new();
    push_str(&mut m, "IOCGuard Report Summary");
    m.push('\n');
    let mut k: usize = 0;
    let ghost base = m@;
    while k < 30
        invariant
            k <= 30,
            m@ == base + Seq::new(k as nat, |_i: int| '='),
        decreases 30 - k,
    {
        m.push('=');
        assert(m@ =~= base + Seq::new((k + 1) as nat, |_i: int| '='));
        k = k + 1;
    }
    m.push('\n');
    let ghost head = m@;
    assert(head =~= text_line("IOCGuard Report Summary"@) + text_line(
        Seq::new(rule_width(), |_i: int| '='),
    ));
    push_count_line(&mut m, "Total lines processed: ", result.processed);
    push_count_line(&mut m, "Valid domains:       ", result.valid_count);
    push_count_line(&mut m, "Invalid domains:     ", result.invalid_count);
    push_count_line(&mut m, "Allowlisted domains: ", result.allowlisted_count);
    push_count_line(&mut m, "Suspicious domains:  ", result.suspicious_count);
    assert(m@ =~= spec_summary(result@));
    string_of(&m)
}

/// The header line of the accepted and suspicious report files.
pub open spec fn domain_header() -> Seq<char> {
    "normalized_domain,source,status,reason"@
}

/// The header line of the rejected report file.
pub open spec fn rejected_header() -> Seq<char> {
    "original_value,source,status,reason"@
}

/// The files of the report directory, as (file name, contents) pairs.
pub open spec fn spec_report_documents(r: ResultView) -> Seq<(Seq<char>, Seq<char>)> {
    seq![
        ("accepted.csv"@, spec_csv_document(domain_header(), rows_with(r.records, DomainStatus::Accepted))),
        ("suspicious.csv"@, spec_csv_document(domain_header(), rows_with(r.records, DomainStatus::Suspicious))),
        ("rejected.csv"@, spec_csv_document(rejected_header(), rows_with(r.records, DomainStatus::Rejected))),
        ("summary.txt"@, spec_summary(r)),
    ]
}

pub open spec fn document_views(v: Seq<(String, String)>) -> Seq<(Seq<char>, Seq<char>)> {
    v.map_values(|p: (String, String)| (p.0@, p.1@))
}

/// The report directory of a run: the accepted, suspicious and rejected CSV
/// files and the summary, each with its file name.
pub fn report_documents(result: &ValidationResult) -> (res: Vec<(String, String)>)
    ensures
        document_views(res@) == spec_report_documents(result@),
{
    let rows = report_rows(result);
    let mut res: Vec<(String, String)> = Vec::new();
    res.push(
        (
            "accepted.csv".to_owned(),
            csv_document("normalized_domain,source,status,reason", &rows.accepted),
        ),
    );
    res.push(
        (
            "suspicious.csv".to_owned(),
            csv_document("normalized_domain,source,status,reason", &rows.suspicious),
        ),
    );
    res.push(
        (
            "rejected.csv".to_owned(),
            csv_document("original_value,source,status,reason", &rows.rejected),
        ),
    );
    res.push(("summary.txt".to_owned(), summary_text(result)));
    assert(document_views(res@) =~= spec_report_documents(result@));
    res
}

/// The summary printed on the console after a run.
pub open spec fn spec_console_summary(r: ResultView, out_dir: Seq<char>) -> Seq<char> {
    text_line("IOCGuard report"@) + text_line("Processed lines  : "@ + decimal(r.processed))
        + text_line("Valid domains    : "@ + decimal(r.valid_count)) + text_line(
        "Invalid domains  : "@ + decimal(r.invalid_count),
    ) + text_line("Allowlisted domains: "@ + decimal(r.allowlisted_count)) + text_line(
        "Suspicious domains : "@ + decimal(r.suspicious_count),
    ) + text_line("Report directory : "@ + out_dir)
}

/// The text of the console summary: the five counters and the report directory.
pub fn console_summary(result: &ValidationResult, out_dir: &str) -> (res: String)
    ensures
        res@ == spec_console_summary(result@, out_dir@),
        !out_dir@.contains('\n') ==> split_on(res@, '\n') == seq![
            "IOCGuard report"@,
            "Processed lines  : "@ + decimal(result.processed as nat),
            "Valid domains    : "@ + decimal(result.valid_count as nat),
            "Invalid domains  : "@ + decimal(result.invalid_count as nat),
            "Allowlisted domains: "@ + decimal(result.allowlisted_count as nat),
            "Suspicious domains : "@ + decimal(result.suspicious_count as nat),
            "Report directory : "@ + out_dir@,
            Seq::<char>::empty(),
        ],
{
    proof {
        if !out_dir@.contains('\n') {
            lemma_console_summary_lines(result@, out_dir@);
        }
    }
    let mut m: Vec<char> = Vec::new();
    push_str(&mut m, "IOCGuard report");
    m.push('\n');
    push_count_line(&mut m, "Processed lines  : ", result.processed);
    push_count_line(&mut m, "Valid domains    : ", result.valid_count);
    push_count_line(&mut m, "Invalid domains  : ", result.invalid_count);
    push_count_line(&mut m, "Allowlisted domains: ", result.allowlisted_count);
    push_count_line(&mut m, "Suspicious domains : ", result.suspicious_count);
    push_str(&mut m, "Report directory : ");
    push_str(&mut m, out_dir);
    m.push('\n');
    assert(m@ =~= spec_console_summary(result@, out_dir@));
    string_of(&m)
}

// ---------------------------------------------------------------------------
// Laws of the report
// ---------------------------------------------------------------------------
/// A report file holds one row per record of its status.
pub proof fn lemma_rows_count(rs: Seq<RecordView>, st: DomainStatus)
    ensures
        rows_with(rs, st).len() == count_status(rs, st),
    decreases rs.len(),
{
    if rs.len() > 0 {
        lemma_rows_count(rs.drop_last(), st);
    }
}

/// Every record lands in exactly one of the three report files.
pub proof fn lemma_rows_partition(rs: Seq<RecordView>)
    ensures
        rows_with(rs, DomainStatus::Accepted).len() + rows_with(rs, DomainStatus::Suspicious).len()
            + rows_with(rs, DomainStatus::Rejected).len() == rs.len(),
    decreases rs.len(),
{
    if rs.len() > 0 {
        lemma_rows_partition(rs.drop_last());
    }
}

/// The report files agree with the summary of a run: the rejected file has
/// one row per invalid domain, the suspicious file one per suspicious domain,
/// and the accepted and suspicious files together one per valid domain.
pub proof fn lemma_report_matches_summary(csv: Seq<char>, allow: Seq<Seq<char>>)
    ensures
        ({
            let t = spec_process(csv, allow);
            &&& rows_with(t.records, DomainStatus::Rejected).len() == t.invalid_count
            &&& rows_with(t.records, DomainStatus::Suspicious).len() == t.suspicious_count
            &&& rows_with(t.records, DomainStatus::Accepted).len() + rows_with(
                t.records,
                DomainStatus::Suspicious,
            ).len() == t.valid_count
        }),
{
    let t = spec_process(csv, allow);
    lemma_process_counts(csv, allow);
    lemma_rows_count(t.records, DomainStatus::Rejected);
    lemma_rows_count(t.records, DomainStatus::Suspicious);
    lemma_rows_count(t.records, DomainStatus::Accepted);
}

/// The row of an accepted or suspicious record begins with its normalized
/// domain (escaped) as first field; that of a rejected record with its
/// original value.
pub proof fn lemma_row_first_field(r: RecordView)
    ensures
        r.status != DomainStatus::Rejected && r.normalized is Some ==> spec_row(r).take(
            (spec_escape(r.normalized->0).len() + 1) as int,
        ) == spec_escape(r.normalized->0).push(','),
        r.status == DomainStatus::Rejected ==> spec_row(r).take((spec_escape(r.original).len() + 1) as int)
            == spec_escape(r.original).push(','),
{
    let first = if r.status == DomainStatus::Rejected {
        r.original
    } else {
        shown_domain(r)
    };
    let e = spec_escape(first);
    assert(spec_row(r).take((e.len() + 1) as int) =~= e.push(','));
}

/// Digits are not line breaks.
proof fn lemma_decimal_no_newline(n: nat)
    ensures
        !decimal(n).contains('\n'),
    decreases n,
{
    if n >= 10 {
        lemma_decimal_no_newline(n / 10);
        assert(digit(n % 10) != '\n');
        assert forall|i: int| 0 <= i < decimal(n).len() implies decimal(n)[i] != '\n' by {
            if i < decimal(n / 10).len() {
                assert(decimal(n)[i] == decimal(n / 10)[i]);
            }
        }
    } else {
        assert(digit(n) != '\n');
        assert(decimal(n)[0] != '\n');
    }
}

/// Splitting at line breaks takes off a first line that holds none.
proof fn lemma_split_line(x: Seq<char>, rest: Seq<char>)
    requires
        !x.contains('\n'),
    ensures
        split_on(x + seq!['\n'] + rest, '\n') == seq![x] + split_on(rest, '\n'),
{
    lemma_split_on_first(x, '\n', rest);
}

/// The lines of the summary: the title, a rule of 30 `=`, then one line per
/// counter, each the literal label followed by that counter in decimal:
/// processed lines, valid, invalid, allowlisted and suspicious domains.
pub proof fn lemma_summary_lines(r: ResultView)
    ensures
        split_on(spec_summary(r), '\n') == seq![
            "IOCGuard Report Summary"@,
            Seq::new(30, |_i: int| '='),
            "Total lines processed: "@ + decimal(r.processed),
            "Valid domains:       "@ + decimal(r.valid_count),
            "Invalid domains:     "@ + decimal(r.invalid_count),
            "Allowlisted domains: "@ + decimal(r.allowlisted_count),
            "Suspicious domains:  "@ + decimal(r.suspicious_count),
            Seq::<char>::empty(),
        ],
{
    let l0 = "IOCGuard Report Summary"@;
    let l1 = Seq::new(30, |_i: int| '=');
    let l2 = "Total lines processed: "@ + decimal(r.processed);
    let l3 = "Valid domains:       "@ + decimal(r.valid_count);
    let l4 = "Invalid domains:     "@ + decimal(r.invalid_count);
    let l5 = "Allowlisted domains: "@ + decimal(r.allowlisted_count);
    let l6 = "Suspicious domains:  "@ + decimal(r.suspicious_count);
    reveal_strlit("IOCGuard Report Summary");
    reveal_strlit("Total lines processed: ");
    reveal_strlit("Valid domains:       ");
    reveal_strlit("Invalid domains:     ");
    reveal_strlit("Allowlisted domains: ");
    reveal_strlit("Suspicious domains:  ");
    lemma_no_newline_after_label("Total lines processed: "@, r.processed);
    lemma_no_newline_after_label("Valid domains:       "@, r.valid_count);
    lemma_no_newline_after_label("Invalid domains:     "@, r.invalid_count);
    lemma_no_newline_after_label("Allowlisted domains: "@, r.allowlisted_count);
    lemma_no_newline_after_label("Suspicious domains:  "@, r.suspicious_count);
    assert(!l0.contains('\n'));
    assert(!l1.contains('\n'));
    let e = Seq::<char>::empty();
    let t6 = l6 + seq!['\n'] + e;
    let t5 = l5 + seq!['\n'] + t6;
    let t4 = l4 + seq!['\n'] + t5;
    let t3 = l3 + seq!['\n'] + t4;
    let t2 = l2 + seq!['\n'] + t3;
    let t1 = l1 + seq!['\n'] + t2;
    let t0 = l0 + seq!['\n'] + t1;
    assert(spec_summary(r) =~= t0);
    lemma_split_line(l6, e);
    lemma_split_line(l5, t6);
    lemma_split_line(l4, t5);
    lemma_split_line(l3, t4);
    lemma_split_line(l2, t3);
    lemma_split_line(l1, t2);
    lemma_split_line(l0, t1);
    lemma_index_of_unique(e, '\n', 0);
    assert(split_on(e, '\n') == seq![e]);
    assert(split_on(t0, '\n') =~= seq![l0, l1, l2, l3, l4, l5, l6, e]);
}

/// A label without line breaks followed by a decimal numeral holds none.
proof fn lemma_no_newline_after_label(label: Seq<char>, n: nat)
    requires
        !label.contains('\n'),
    ensures
        !(label + decimal(n)).contains('\n'),
{
    lemma_decimal_no_newline(n);
    let s = label + decimal(n);
    assert forall|i: int| 0 <= i < s.len() implies s[i] != '\n' by {
        if i < label.len() {
            assert(s[i] == label[i]);
        } else {
            assert(s[i] == decimal(n)[i - label.len()]);
        }
    }
}

/// Every report row is its four fields joined by commas: the escaped domain
/// (the normalized one for accepted and suspicious records, falling back to the
/// original; the original for rejected ones), the escaped source, the literal
/// status word, and the escaped reason (`valid` for an accepted record with
/// no reason).
pub proof fn lemma_row_fields(r: RecordView)
    ensures
        ({
            let shown = match r.normalized {
                Some(n) => n,
                None => r.original,
            };
            let tail = seq![','] + spec_escape(r.source) + seq![','];
            &&& r.status == DomainStatus::Accepted && r.reason.len() == 0 ==> spec_row(r)
                == spec_escape(shown) + tail + "accepted"@ + seq![','] + spec_escape("valid"@)
            &&& r.status == DomainStatus::Accepted && r.reason.len() > 0 ==> spec_row(r)
                == spec_escape(shown) + tail + "accepted"@ + seq![','] + spec_escape(r.reason)
            &&& r.status == DomainStatus::Suspicious ==> spec_row(r) == spec_escape(shown) + tail
                + "suspicious"@ + seq![','] + spec_escape(r.reason)
            &&& r.status == DomainStatus::Rejected ==> spec_row(r) == spec_escape(r.original)
                + tail + "rejected"@ + seq![','] + spec_escape(r.reason)
        }),
{
    let tail = seq![','] + spec_escape(r.source) + seq![','];
    let shown = shown_domain(r);
    assert(spec_escape(shown) + tail + "accepted"@ + seq![','] + spec_escape("valid"@)
        =~= row_text(shown, r.source, "accepted"@, "valid"@));
    assert(spec_escape(shown) + tail + "accepted"@ + seq![','] + spec_escape(r.reason)
        =~= row_text(shown, r.source, "accepted"@, r.reason));
    assert(spec_escape(shown) + tail + "suspicious"@ + seq![','] + spec_escape(r.reason)
        =~= row_text(shown, r.source, "suspicious"@, r.reason));
    assert(spec_escape(r.original) + tail + "rejected"@ + seq![','] + spec_escape(r.reason)
        =~= row_text(r.original, r.source, "rejected"@, r.reason));
}

/// The lines of the console summary: the title, one line per counter with its
/// literal label and the counter in decimal, and the report directory.
pub proof fn lemma_console_summary_lines(r: ResultView, out_dir: Seq<char>)
    requires
        !out_dir.contains('\n'),
    ensures
        split_on(spec_console_summary(r, out_dir), '\n') == seq![
            "IOCGuard report"@,
            "Processed lines  : "@ + decimal(r.processed),
            "Valid domains    : "@ + decimal(r.valid_count),
            "Invalid domains  : "@ + decimal(r.invalid_count),
            "Allowlisted domains: "@ + decimal(r.allowlisted_count),
            "Suspicious domains : "@ + decimal(r.suspicious_count),
            "Report directory : "@ + out_dir,
            Seq::<char>::empty(),
        ],
{
    let l0 = "IOCGuard report"@;
    let l1 = "Processed lines  : "@ + decimal(r.processed);
    let l2 = "Valid domains    : "@ + decimal(r.valid_count);
    let l3 = "Invalid domains  : "@ + decimal(r.invalid_count);
    let l4 = "Allowlisted domains: "@ + decimal(r.allowlisted_count);
    let l5 = "Suspicious domains : "@ + decimal(r.suspicious_count);
    let l6 = "Report directory : "@ + out_dir;
    reveal_strlit("IOCGuard report");
    reveal_strlit("Processed lines  : ");
    reveal_strlit("Valid domains    : ");
    reveal_strlit("Invalid domains  : ");
    reveal_strlit("Allowlisted domains: ");
    reveal_strlit("Suspicious domains : ");
    reveal_strlit("Report directory : ");
    lemma_no_newline_after_label("Processed lines  : "@, r.processed);
    lemma_no_newline_after_label("Valid domains    : "@, r.valid_count);
    lemma_no_newline_after_label("Invalid domains  : "@, r.invalid_count);
    lemma_no_newline_after_label("Allowlisted domains: "@, r.allowlisted_count);
    lemma_no_newline_after_label("Suspicious domains : "@, r.suspicious_count);
    assert(!l0.contains('\n'));
    assert forall|i: int| 0 <= i < l6.len() implies l6[i] != '\n' by {
        if i >= "Report directory : "@.len() {
            assert(l6[i] == out_dir[i - "Report directory : "@.len()]);
        }
    }
    let e = Seq::<char>::empty();
    let t6 = l6 + seq!['\n'] + e;
    let t5 = l5 + seq!['\n'] + t6;
    let t4 = l4 + seq!['\n'] + t5;
    let t3 = l3 + seq!['\n'] + t4;
    let t2 = l2 + seq!['\n'] + t3;
    let t1 = l1 + seq!['\n'] + t2;
    let t0 = l0 + seq!['\n'] + t1;
    assert(spec_console_summary(r, out_dir) =~= t0);
    lemma_split_line(l6, e);
    lemma_split_line(l5, t6);
    lemma_split_line(l4, t5);
    lemma_split_line(l3, t4);
    lemma_split_line(l2, t3);
    lemma_split_line(l1, t2);
    lemma_split_line(l0, t1);
    lemma_index_of_unique(e, '\n', 0);
    assert(split_on(e, '\n') == seq![e]);
    assert(split_on(t0, '\n') =~= seq![l0, l1, l2, l3, l4, l5, l6, e]);
}

/// Joined lines, read from the front: the first line, a newline, then the rest.
proof fn lemma_lines_text_front(rows: Seq<Seq<char>>)
    requires
        rows.len() > 0,
    ensures
        lines_text(rows) == rows[0] + seq!['\n'] + lines_text(rows.drop_first()),
    decreases rows.len(),
{
    if rows.len() == 1 {
        assert(rows.drop_last() =~= Seq::<Seq<char>>::empty());
        assert(rows.drop_first() =~= Seq::<Seq<char>>::empty());
        assert(lines_text(rows) =~= rows[0] + seq!['\n'] + lines_text(rows.drop_first()));
    } else {
        lemma_lines_text_front(rows.drop_last());
        assert(rows.drop_last().drop_first() =~= rows.drop_first().drop_last());
        assert(rows.drop_first().last() == rows.last());
        assert(lines_text(rows) =~= rows[0] + seq!['\n'] + lines_text(rows.drop_first()));
    }
}

/// Splitting joined lines that hold no line breaks gives the lines back,
/// followed by the empty text after the last newline.
proof fn lemma_split_lines_text(rows: Seq<Seq<char>>)
    requires
        forall|k: int| 0 <= k < rows.len() ==> !(#[trigger] rows[k]).contains('\n'),
    ensures
        split_on(lines_text(rows), '\n') == rows + seq![Seq::<char>::empty()],
    decreases rows.len(),
{
    if rows.len() == 0 {
        let e = Seq::<char>::empty();
        lemma_index_of_unique(e, '\n', 0);
        assert(split_on(e, '\n') == seq![e]);
        assert(rows + seq![e] =~= seq![e]);
    } else {
        lemma_lines_text_front(rows);
        assert forall|k: int| 0 <= k < rows.drop_first().len() implies !(#[trigger] rows.drop_first()[k]).contains('\n') by {
            assert(rows.drop_first()[k] == rows[k + 1]);
        }
        lemma_split_lines_text(rows.drop_first());
        assert(!rows[0].contains('\n'));
        lemma_split_line(rows[0], lines_text(rows.drop_first()));
        assert(seq![rows[0]] + (rows.drop_first() + seq![Seq::<char>::empty()]) =~= rows + seq![
            Seq::<char>::empty(),
        ]);
    }
}

/// A CSV document whose header and rows hold no line breaks reads back, line
/// by line, as the header followed by the rows (and the empty text after the
/// final newline).
pub proof fn lemma_csv_document_lines(header: Seq<char>, rows: Seq<Seq<char>>)
    requires
        !header.contains('\n'),
        forall|k: int| 0 <= k < rows.len() ==> !(#[trigger] rows[k]).contains('\n'),
    ensures
        split_on(spec_csv_document(header, rows), '\n') == seq![header] + rows + seq![
            Seq::<char>::empty(),
        ],
{
    lemma_split_lines_text(rows);
    lemma_split_line(header, lines_text(rows));
    assert(seq![header] + (rows + seq![Seq::<char>::empty()]) =~= seq![header] + rows + seq![
        Seq::<char>::empty(),
    ]);
}

/// The value of a numeral.
pub open spec fn numeral_value(s: Seq<char>) -> nat
    decreases s.len(),
{
    if s.len() == 0 {
        0
    } else {
        numeral_value(s.drop_last()) * 10 + ((s.last() as u32) - ('0' as u32)) as nat
    }
}

/// A digit character and its value.
proof fn lemma_digit(d: nat)
    requires
        d < 10,
    ensures
        digit(d) as u32 == 48 + d,
        '0' <= digit(d) && digit(d) <= '9',
        d > 0 ==> digit(d) != '0',
{
    assert(((48 + d) as char) as u32 == 48 + d);
}

/// `decimal(n)` is the numeral of `n`: only digits `0`-`9`, no leading zero,
/// and its value is `n`.
pub proof fn lemma_decimal_value(n: nat)
    ensures
        decimal(n).len() > 0,
        n >= 10 ==> decimal(n).len() > 1,
        forall|i: int| 0 <= i < decimal(n).len() ==> '0' <= #[trigger] decimal(n)[i] && decimal(n)[i] <= '9',
        decimal(n).len() > 1 ==> decimal(n)[0] != '0',
        numeral_value(decimal(n)) == n,
    decreases n,
{
    if n >= 10 {
        lemma_decimal_value(n / 10);
        lemma_digit(n % 10);
        let p = decimal(n / 10);
        assert(decimal(n).drop_last() =~= p);
        assert forall|i: int| 0 <= i < decimal(n).len() implies '0' <= #[trigger] decimal(n)[i]
            && decimal(n)[i] <= '9' by {
            if i < p.len() {
                assert(decimal(n)[i] == p[i]);
            }
        }
        assert(decimal(n)[0] == p[0]);
        if n / 10 < 10 {
            lemma_digit(n / 10);
            assert(p[0] == digit(n / 10));
        }
        assert(decimal(n).last() == digit(n % 10));
        assert(numeral_value(decimal(n)) == numeral_value(p) * 10 + (n % 10));
        assert((n / 10) * 10 + n % 10 == n);
    } else {
        lemma_digit(n);
        assert(decimal(n).drop_last() =~= Seq::<char>::empty());
        assert(decimal(n).last() == digit(n));
        assert(numeral_value(decimal(n)) == numeral_value(Seq::<char>::empty()) * 10 + n);
    }
}

} // verus!
