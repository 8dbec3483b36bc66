//! Report generation: diff results as HTML or plain text, and the per-kind summary.

use std::ops::Range;
use vstd::prelude::*;
use crate::RvaError;
use crate::diff_engine::{ChangeType, DiffEntry};
use crate::symbol_resolver::SymbolMap;
use crate::util::{radix_string, radix_spec, dec_string, dec_spec};

verus! {

#[derive(Debug, Clone, Copy, PartialEq, Eq, Structural)]
pub struct ReportSummary {
    pub added: u64,
    pub removed: u64,
    pub modified: u64,
    pub total_bytes: u64,
}

impl Default for ReportSummary {
    fn default() -> (s: Self)
        ensures
            s == (ReportSummary { added: 0, removed: 0, modified: 0, total_bytes: 0 }),
    {
        ReportSummary { added: 0, removed: 0, modified: 0, total_bytes: 0 }
    }
}

/// The model that reports, patches and the UI consume: entries, optional symbols, summary.
#[derive(Debug, Clone)]
pub struct DiffReport {
    pub entries: Vec<DiffEntry>,
    pub symbols: Option<SymbolMap>,
    pub summary: ReportSummary,
}

impl Default for DiffReport {
    fn default() -> (r: Self)
        ensures
            r.entries@.len() == 0,
            r.symbols is None,
            r.summary == (ReportSummary { added: 0, removed: 0, modified: 0, total_bytes: 0 }),
    {
        DiffReport { entries: Vec::new(), symbols: None, summary: ReportSummary { added: 0, removed: 0, modified: 0, total_bytes: 0 } }
    }
}

#[derive(Debug, Clone, Copy, PartialEq, Eq, Structural)]
pub enum ReportFormat {
    Html,
    Txt,
    Json,
}

pub open spec fn ascii_lower(s: Seq<char>) -> Seq<char> {
    s.map_values(|c: char| crate::structural_matcher::lower_char(c))
}

impl ReportFormat {
    /// Parses a command-line format name (case-insensitive `txt` or `json`); anything else is Html.
    pub fn from_str_checked(s: &str) -> (f: ReportFormat)
        ensures
            f == (if ascii_lower(s@) == "txt"@ { ReportFormat::Txt } else if ascii_lower(s@) == "json"@ {
                ReportFormat::Json } else { ReportFormat::Html }),
    {
        proof {
            reveal_strlit("txt");
            reveal_strlit("json");
        }
        let n = s.unicode_len();
        let mut v: Vec<char> = Vec::new();
        let mut i: usize = 0;
        while i < n
            invariant
                n == s@.len(),
                i <= n,
                v@ == ascii_lower(s@.subrange(0, i as int)),
            decreases n - i,
        {
            let c = s.get_char(i);
            let lc = if 'A' <= c && c <= 'Z' { ((c as u8) + 32) as char } else { c };
            v.push(lc);
            proof {
                assert(v@ =~= ascii_lower(s@.subrange(0, i + 1)));
            }
            i = i + 1;
        }
        assert(s@.subrange(0, n as int) =~= s@);
        if v.len() == 3 && v[0] == 't' && v[1] == 'x' && v[2] == 't' {
            assert(v@ =~= "txt"@);
            ReportFormat::Txt
        } else if v.len() == 4 && v[0] == 'j' && v[1] == 's' && v[2] == 'o' && v[3] == 'n' {
            assert(v@ =~= "json"@);
            ReportFormat::Json
        } else {
            proof {
                if v@ == "txt"@ {
                    assert(v@[0] == 't' && v@[1] == 'x' && v@[2] == 't');
                }
                if v@ == "json"@ {
                    assert(v@[0] == 'j' && v@[1] == 's' && v@[2] == 'o' && v@[3] == 'n');
                }
            }
            ReportFormat::Html
        }
    }
}

pub open spec fn sum_kind(es: Seq<DiffEntry>, kind: Option<ChangeType>) -> int
    decreases es.len(),
{
    if es.len() == 0 {
        0
    } else {
        sum_kind(es.drop_last(), kind) + match kind {
            Some(k) => if es.last().change == k { es.last().length as int } else { 0 },
            None => es.last().length as int,
        }
    }
}

proof fn lemma_sum_kind_le(es: Seq<DiffEntry>, kind: ChangeType)
    ensures
        0 <= sum_kind(es, Some(kind)) <= sum_kind(es, None),
    decreases es.len(),
{
    if es.len() > 0 {
        lemma_sum_kind_le(es.drop_last(), kind);
    }
}

proof fn lemma_sum_prefix(es: Seq<DiffEntry>, i: int, kind: Option<ChangeType>)
    requires
        0 <= i <= es.len(),
    ensures
        0 <= sum_kind(es.subrange(0, i), kind) <= sum_kind(es, kind),
    decreases es.len() - i,
{
    if i < es.len() {
        lemma_sum_prefix(es, i + 1, kind);
        assert(es.subrange(0, i + 1).drop_last() =~= es.subrange(0, i));
    } else {
        assert(es.subrange(0, i) =~= es);
    }
    lemma_sum_nonneg(es.subrange(0, i), kind);
}

proof fn lemma_sum_nonneg(es: Seq<DiffEntry>, kind: Option<ChangeType>)
    ensures
        sum_kind(es, kind) >= 0,
    decreases es.len(),
{
    if es.len() > 0 {
        lemma_sum_nonneg(es.drop_last(), kind);
    }
}

/// Totals of the entries' lengths, per kind and overall.
pub fn summarize(entries: &[DiffEntry]) -> (s: ReportSummary)
    requires
        sum_kind(entries@, None) <= u64::MAX,
    ensures
        s.added == sum_kind(entries@, Some(ChangeType::Added)),
        s.removed == sum_kind(entries@, Some(ChangeType::Removed)),
        s.modified == sum_kind(entries@, Some(ChangeType::Modified)),
        s.total_bytes == sum_kind(entries@, None),
{
    let mut added: u64 = 0;
    let mut removed: u64 = 0;
    let mut modified: u64 = 0;
    let mut total_bytes: u64 = 0;
    let n = entries.len();
    let mut i: usize = 0;
    while i < n
        invariant
            n == entries@.len(),
            i <= n,
            sum_kind(entries@, None) <= u64::MAX,
            added == sum_kind(entries@.subrange(0, i as int), Some(ChangeType::Added)),
            removed == sum_kind(entries@.subrange(0, i as int), Some(ChangeType::Removed)),
            modified == sum_kind(entries@.subrange(0, i as int), Some(ChangeType::Modified)),
            total_bytes == sum_kind(entries@.subrange(0, i as int), None),
        decreases n - i,
    {
        let e = &entries[i];
        proof {
            let pre = entries@.subrange(0, i + 1);
            assert(pre.drop_last() =~= entries@.subrange(0, i as int));
            lemma_sum_prefix(entries@, i + 1, None);
            lemma_sum_kind_le(pre, ChangeType::Added);
            lemma_sum_kind_le(pre, ChangeType::Removed);
            lemma_sum_kind_le(pre, ChangeType::Modified);
        }
        total_bytes = total_bytes + e.length;
        match e.change {
            ChangeType::Added => added = added + e.length,
            ChangeType::Removed => removed = removed + e.length,
            ChangeType::Modified => modified = modified + e.length,
        }
        i = i + 1;
    }
    assert(entries@.subrange(0, n as int) =~= entries@);
    ReportSummary { added, removed, modified, total_bytes }
}

pub open spec fn label_spec(c: ChangeType) -> Seq<char> {
    match c {
        ChangeType::Added => "Added"@,
        ChangeType::Removed => "Removed"@,
        ChangeType::Modified => "Modified"@,
    }
}

pub open spec fn color_spec(c: ChangeType) -> Seq<char> {
    match c {
        ChangeType::Added => "#2e7d32"@,
        ChangeType::Removed => "#c62828"@,
        ChangeType::Modified => "#ef6c00"@,
    }
}

/// Display name of a change kind.
pub fn change_label(c: ChangeType) -> (s: &'static str)
    ensures
        s@ == label_spec(c),
{
    match c {
        ChangeType::Added => "Added",
        ChangeType::Removed => "Removed",
        ChangeType::Modified => "Modified",
    }
}

/// Display colour of a change kind: green, red, amber.
pub fn change_color(c: ChangeType) -> (s: &'static str)
    ensures
        s@ == color_spec(c),
{
    match c {
        ChangeType::Added => "#2e7d32",
        ChangeType::Removed => "#c62828",
        ChangeType::Modified => "#ef6c00",
    }
}

pub open spec fn hex_up(n: u64) -> Seq<char> {
    radix_spec(n as nat, 16, true)
}

pub open spec fn range_text_spec(r: Option<Range<u64>>) -> Seq<char> {
    match r {
        Some(rg) => "0x"@ + hex_up(rg.start) + "..0x"@ + hex_up(rg.end),
        None => "-"@,
    }
}

/// `0xSTART..0xEND` in upper-case hexadecimal, or `-` for no range.
pub fn range_text(r: &Option<Range<u64>>) -> (s: String)
    ensures
        s@ == range_text_spec(*r),
{
    match r {
        Some(rg) => {
            let mut s = String::from_str("0x");
            let a = radix_string(rg.start, 16, true);
            s.append(a.as_str());
            s.append("..0x");
            let b = radix_string(rg.end, 16, true);
            s.append(b.as_str());
            s
        },
        None => String::from_str("-"),
    }
}

pub const HTML_HEAD: &'static str = "<!DOCTYPE html>\n<html lang=\"en\">\n<head><meta charset=\"utf-8\">\n<title>rva diff report</title>\n<style>\nbody{font-family:ui-monospace,Menlo,Consolas,monospace;margin:0;background:#0f1115;color:#e6e6e6}\n.wrap{max-width:900px;margin:0 auto;padding:24px}\nh1{font-size:20px}\n.cards{display:flex;gap:12px;margin:16px 0}\n.card{flex:1;background:#1a1d24;border:1px solid #2a2e38;border-radius:10px;padding:14px}\n.card .n{font-size:24px;font-weight:700}\n.card.added .n{color:#2e7d32}.card.removed .n{color:#c62828}.card.modified .n{color:#ef6c00}\ntable{width:100%;border-collapse:collapse;font-size:14px}\nth,td{text-align:left;padding:6px 10px;border-bottom:1px solid #2a2e38}\nth{color:#9aa4b2}\n</style></head>\n<body><div class=\"wrap\">\n<h1>rva binary diff report</h1>\n<div class=\"cards\">\n<div class=\"card added\"><div>Added</div><div class=\"n\">";
pub const HTML_REMOVED: &'static str = "</div></div>\n<div class=\"card removed\"><div>Removed</div><div class=\"n\">";
pub const HTML_MODIFIED: &'static str = "</div></div>\n<div class=\"card modified\"><div>Modified</div><div class=\"n\">";
pub const HTML_TOTAL: &'static str = "</div></div>\n<div class=\"card\"><div>Total bytes</div><div class=\"n\">";
pub const HTML_TABLE: &'static str = "</div></div>\n</div>\n<table><thead><tr><th>Change</th><th>Offset</th><th>Len</th><th>Old</th><th>New</th></tr></thead>\n<tbody>\n";
pub const HTML_TAIL: &'static str = "</tbody></table>\n</div></body></html>";
pub const ROW_0: &'static str = "<tr><td style=\"color:";
pub const ROW_1: &'static str = ";font-weight:600\">";
pub const ROW_2: &'static str = "</td><td>0x";
pub const ROW_3: &'static str = "</td><td>";
pub const ROW_4: &'static str = "</td></tr>\n";

pub open spec fn html_row(e: DiffEntry) -> Seq<char> {
    ROW_0@ + color_spec(e.change) + ROW_1@ + label_spec(e.change) + ROW_2@ + hex_up(e.offset) + ROW_3@
        + dec_spec(e.length as nat) + ROW_3@ + range_text_spec(e.old) + ROW_3@ + range_text_spec(e.new) + ROW_4@
}

pub open spec fn html_rows(es: Seq<DiffEntry>) -> Seq<char>
    decreases es.len(),
{
    if es.len() == 0 { Seq::empty() } else { html_rows(es.drop_last()) + html_row(es.last()) }
}

/// The HTML report: summary cards and one table row per entry.
pub open spec fn html_spec(r: DiffReport) -> Seq<char> {
    HTML_HEAD@ + dec_spec(r.summary.added as nat) + HTML_REMOVED@ + dec_spec(r.summary.removed as nat) + HTML_MODIFIED@
        + dec_spec(r.summary.modified as nat) + HTML_TOTAL@ + dec_spec(r.summary.total_bytes as nat) + HTML_TABLE@
        + html_rows(r.entries@) + HTML_TAIL@
}

pub open spec fn txt_line(e: DiffEntry) -> Seq<char> {
    "  "@ + label_spec(e.change) + " @ off="@ + dec_spec(e.offset as nat) + " len="@ + dec_spec(e.length as nat) + " old="@
        + range_text_spec(e.old) + " new="@ + range_text_spec(e.new) + "\n"@
}

pub open spec fn txt_lines(es: Seq<DiffEntry>) -> Seq<char>
    decreases es.len(),
{
    if es.len() == 0 { Seq::empty() } else { txt_lines(es.drop_last()) + txt_line(es.last()) }
}

/// The text report: a summary line and one line per entry.
pub open spec fn txt_spec(r: DiffReport) -> Seq<char> {
    "Summary: Added="@ + dec_spec(r.summary.added as nat) + " Removed="@ + dec_spec(r.summary.removed as nat) + " Modified="@
        + dec_spec(r.summary.modified as nat) + " TotalBytes="@ + dec_spec(r.summary.total_bytes as nat) + "\n"@
        + txt_lines(r.entries@)
}

/// `s` occurs in `text`.
pub open spec fn shows(text: Seq<char>, s: Seq<char>) -> bool {
    exists|i: int| 0 <= i && i + s.len() <= text.len() && #[trigger] text.subrange(i, i + s.len()) == s
}

proof fn lemma_shows(p: Seq<char>, s: Seq<char>, q: Seq<char>)
    ensures
        shows(p + s + q, s),
{
    assert((p + s + q).subrange(p.len() as int, (p.len() + s.len()) as int) =~= s);
}

/// `k` ends with `l`.
proof fn lemma_ends_with(k: Seq<char>, l: Seq<char>)
    requires
        l.len() <= k.len(),
        k.subrange(k.len() - l.len(), k.len() as int) == l,
    ensures
        k == k.subrange(0, k.len() - l.len()) + l,
{
    assert(k =~= k.subrange(0, k.len() - l.len()) + k.subrange(k.len() - l.len(), k.len() as int));
}

/// The HTML report's summary cards: the number shown on each card, right after its label
/// and closed by `</div>`, is the summary count of that card's own kind (Added, Removed,
/// Modified, Total bytes).
pub proof fn law_html_cards(r: DiffReport)
    ensures
        shows(html_spec(r), "<div>Added</div><div class=\"n\">"@ + dec_spec(r.summary.added as nat) + "</div>"@),
        shows(html_spec(r), "<div>Removed</div><div class=\"n\">"@ + dec_spec(r.summary.removed as nat) + "</div>"@),
        shows(html_spec(r), "<div>Modified</div><div class=\"n\">"@ + dec_spec(r.summary.modified as nat) + "</div>"@),
        shows(html_spec(r), "<div>Total bytes</div><div class=\"n\">"@ + dec_spec(r.summary.total_bytes as nat) + "</div>"@),
{
    reveal_strlit("<!DOCTYPE html>\n<html lang=\"en\">\n<head><meta charset=\"utf-8\">\n<title>rva diff report</title>\n<style>\nbody{font-family:ui-monospace,Menlo,Consolas,monospace;margin:0;background:#0f1115;color:#e6e6e6}\n.wrap{max-width:900px;margin:0 auto;padding:24px}\nh1{font-size:20px}\n.cards{display:flex;gap:12px;margin:16px 0}\n.card{flex:1;background:#1a1d24;border:1px solid #2a2e38;border-radius:10px;padding:14px}\n.card .n{font-size:24px;font-weight:700}\n.card.added .n{color:#2e7d32}.card.removed .n{color:#c62828}.card.modified .n{color:#ef6c00}\ntable{width:100%;border-collapse:collapse;font-size:14px}\nth,td{text-align:left;padding:6px 10px;border-bottom:1px solid #2a2e38}\nth{color:#9aa4b2}\n</style></head>\n<body><div class=\"wrap\">\n<h1>rva binary diff report</h1>\n<div class=\"cards\">\n<div class=\"card added\"><div>Added</div><div class=\"n\">");
    reveal_strlit("</div></div>\n<div class=\"card removed\"><div>Removed</div><div class=\"n\">");
    reveal_strlit("</div></div>\n<div class=\"card modified\"><div>Modified</div><div class=\"n\">");
    reveal_strlit("</div></div>\n<div class=\"card\"><div>Total bytes</div><div class=\"n\">");
    reveal_strlit("</div></div>\n</div>\n<table><thead><tr><th>Change</th><th>Offset</th><th>Len</th><th>Old</th><th>New</th></tr></thead>\n<tbody>\n");
    reveal_strlit("<div>Added</div><div class=\"n\">");
    reveal_strlit("<div>Removed</div><div class=\"n\">");
    reveal_strlit("<div>Modified</div><div class=\"n\">");
    reveal_strlit("<div>Total bytes</div><div class=\"n\">");
    reveal_strlit("</div>");
    let h = HTML_HEAD@;
    let rm = HTML_REMOVED@;
    let md = HTML_MODIFIED@;
    let tt = HTML_TOTAL@;
    let tb = HTML_TABLE@;
    let la = "<div>Added</div><div class=\"n\">"@;
    let lr = "<div>Removed</div><div class=\"n\">"@;
    let lm = "<div>Modified</div><div class=\"n\">"@;
    let lt = "<div>Total bytes</div><div class=\"n\">"@;
    let cl = "</div>"@;
    let da = dec_spec(r.summary.added as nat);
    let dr = dec_spec(r.summary.removed as nat);
    let dm = dec_spec(r.summary.modified as nat);
    let dt = dec_spec(r.summary.total_bytes as nat);
    let rest = html_rows(r.entries@) + HTML_TAIL@;
    assert(h.subrange(h.len() - la.len(), h.len() as int) =~= la);
    assert(rm.subrange(rm.len() - lr.len(), rm.len() as int) =~= lr);
    assert(md.subrange(md.len() - lm.len(), md.len() as int) =~= lm);
    assert(tt.subrange(tt.len() - lt.len(), tt.len() as int) =~= lt);
    lemma_ends_with(h, la);
    lemma_ends_with(rm, lr);
    lemma_ends_with(md, lm);
    lemma_ends_with(tt, lt);
    assert(rm =~= cl + rm.subrange(6, rm.len() as int));
    assert(md =~= cl + md.subrange(6, md.len() as int));
    assert(tt =~= cl + tt.subrange(6, tt.len() as int));
    assert(tb =~= cl + tb.subrange(6, tb.len() as int));
    let text = html_spec(r);
    assert(text == h + da + rm + dr + md + dm + tt + dt + tb + rest);
    let h0 = h.subrange(0, h.len() - la.len());
    let r0 = rm.subrange(0, rm.len() - lr.len());
    let m0 = md.subrange(0, md.len() - lm.len());
    let t0 = tt.subrange(0, tt.len() - lt.len());
    assert(text =~= h0 + (la + da + cl) + (rm.subrange(6, rm.len() as int) + dr + md + dm + tt + dt + tb + rest));
    lemma_shows(h0, la + da + cl, rm.subrange(6, rm.len() as int) + dr + md + dm + tt + dt + tb + rest);
    assert(text =~= (h + da + r0) + (lr + dr + cl) + (md.subrange(6, md.len() as int) + dm + tt + dt + tb + rest));
    lemma_shows(h + da + r0, lr + dr + cl, md.subrange(6, md.len() as int) + dm + tt + dt + tb + rest);
    assert(text =~= (h + da + rm + dr + m0) + (lm + dm + cl) + (tt.subrange(6, tt.len() as int) + dt + tb + rest));
    lemma_shows(h + da + rm + dr + m0, lm + dm + cl, tt.subrange(6, tt.len() as int) + dt + tb + rest);
    assert(text =~= (h + da + rm + dr + md + dm + t0) + (lt + dt + cl) + (tb.subrange(6, tb.len() as int) + rest));
    lemma_shows(h + da + rm + dr + md + dm + t0, lt + dt + cl, tb.subrange(6, tb.len() as int) + rest);
}

/// The text report's summary line: each count follows its own label (`Added=`, `Removed=`,
/// `Modified=`, `TotalBytes=`) and is the summary count of that kind, up to the next
/// space or the line end.
pub proof fn law_txt_summary(r: DiffReport)
    ensures
        shows(txt_spec(r), "Added="@ + dec_spec(r.summary.added as nat) + " "@),
        shows(txt_spec(r), "Removed="@ + dec_spec(r.summary.removed as nat) + " "@),
        shows(txt_spec(r), "Modified="@ + dec_spec(r.summary.modified as nat) + " "@),
        shows(txt_spec(r), "TotalBytes="@ + dec_spec(r.summary.total_bytes as nat) + "\n"@),
{
    reveal_strlit("Summary: Added=");
    reveal_strlit(" Removed=");
    reveal_strlit(" Modified=");
    reveal_strlit(" TotalBytes=");
    reveal_strlit("\n");
    reveal_strlit("Added=");
    reveal_strlit("Removed=");
    reveal_strlit("Modified=");
    reveal_strlit("TotalBytes=");
    reveal_strlit(" ");
    let sa = "Summary: Added="@;
    let sr = " Removed="@;
    let sm = " Modified="@;
    let st = " TotalBytes="@;
    let nl = "\n"@;
    let sp = " "@;
    let da = dec_spec(r.summary.added as nat);
    let dr = dec_spec(r.summary.removed as nat);
    let dm = dec_spec(r.summary.modified as nat);
    let dt = dec_spec(r.summary.total_bytes as nat);
    let rest = txt_lines(r.entries@);
    let text = txt_spec(r);
    assert(sa =~= "Summary: "@ + "Added="@) by {
        reveal_strlit("Summary: ");
    }
    assert(sr =~= sp + "Removed="@);
    assert(sm =~= sp + "Modified="@);
    assert(st =~= sp + "TotalBytes="@);
    assert(text =~= "Summary: "@ + ("Added="@ + da + sp) + ("Removed="@ + dr + sm + dm + st + dt + nl + rest));
    lemma_shows("Summary: "@, "Added="@ + da + sp, "Removed="@ + dr + sm + dm + st + dt + nl + rest);
    assert(text =~= (sa + da + sp) + ("Removed="@ + dr + sp) + ("Modified="@ + dm + st + dt + nl + rest));
    lemma_shows(sa + da + sp, "Removed="@ + dr + sp, "Modified="@ + dm + st + dt + nl + rest);
    assert(text =~= (sa + da + sr + dr + sp) + ("Modified="@ + dm + sp) + ("TotalBytes="@ + dt + nl + rest));
    lemma_shows(sa + da + sr + dr + sp, "Modified="@ + dm + sp, "TotalBytes="@ + dt + nl + rest);
    assert(text =~= (sa + da + sr + dr + sm + dm + sp) + ("TotalBytes="@ + dt + nl) + rest);
    lemma_shows(sa + da + sr + dr + sm + dm + sp, "TotalBytes="@ + dt + nl, rest);
}

/// Plain-text report.
#[verifier::rlimit(30)]
pub fn to_txt(report: &DiffReport) -> (out: String)
    ensures
        out@ == txt_spec(*report),
{
    let s = &report.summary;
    let mut out = String::from_str("Summary: Added=");
    out.append(dec_string(s.added).as_str());
    out.append(" Removed=");
    out.append(dec_string(s.removed).as_str());
    out.append(" Modified=");
    out.append(dec_string(s.modified).as_str());
    out.append(" TotalBytes=");
    out.append(dec_string(s.total_bytes).as_str());
    out.append("\n");
    let ghost head = out@;
    let n = report.entries.len();
    let mut i: usize = 0;
    while i < n
        invariant
            n == report.entries@.len(),
            i <= n,
            out@ == head + txt_lines(report.entries@.subrange(0, i as int)),
        decreases n - i,
    {
        let e = &report.entries[i];
        proof {
            assert(report.entries@.subrange(0, i + 1).drop_last() =~= report.entries@.subrange(0, i as int));
        }
        out.append("  ");
        out.append(change_label(e.change));
        out.append(" @ off=");
        out.append(dec_string(e.offset).as_str());
        out.append(" len=");
        out.append(dec_string(e.length).as_str());
        out.append(" old=");
        out.append(range_text(&e.old).as_str());
        out.append(" new=");
        out.append(range_text(&e.new).as_str());
        out.append("\n");
        proof {
            assert(out@ =~= head + txt_lines(report.entries@.subrange(0, i + 1)));
        }
        i = i + 1;
    }
    assert(report.entries@.subrange(0, n as int) =~= report.entries@);
    out
}

/// Interactive HTML report.
#[verifier::rlimit(30)]
pub fn to_html(report: &DiffReport) -> (out: String)
    ensures
        out@ == html_spec(*report),
{
    let s = &report.summary;
    let mut rows = String::new();
    let n = report.entries.len();
    let mut i: usize = 0;
    while i < n
        invariant
            n == report.entries@.len(),
            i <= n,
            rows@ == html_rows(report.entries@.subrange(0, i as int)),
        decreases n - i,
    {
        let e = &report.entries[i];
        proof {
            assert(report.entries@.subrange(0, i + 1).drop_last() =~= report.entries@.subrange(0, i as int));
        }
        rows.append(ROW_0);
        rows.append(change_color(e.change));
        rows.append(ROW_1);
        rows.append(change_label(e.change));
        rows.append(ROW_2);
        rows.append(radix_string(e.offset, 16, true).as_str());
        rows.append(ROW_3);
        rows.append(dec_string(e.length).as_str());
        rows.append(ROW_3);
        rows.append(range_text(&e.old).as_str());
        rows.append(ROW_3);
        rows.append(range_text(&e.new).as_str());
        rows.append(ROW_4);
        proof {
            assert(rows@ =~= html_rows(report.entries@.subrange(0, i + 1)));
        }
        i = i + 1;
    }
    assert(report.entries@.subrange(0, n as int) =~= report.entries@);
    let mut out = String::from_str(HTML_HEAD);
    out.append(dec_string(s.added).as_str());
    out.append(HTML_REMOVED);
    out.append(dec_string(s.removed).as_str());
    out.append(HTML_MODIFIED);
    out.append(dec_string(s.modified).as_str());
    out.append(HTML_TOTAL);
    out.append(dec_string(s.total_bytes).as_str());
    out.append(HTML_TABLE);
    out.append(rows.as_str());
    out.append(HTML_TAIL);
    out
}

/// Renders diff reports.
pub trait ReportGenerator {
    /// Renders `report` in `format`: the HTML or text report, or the JSON text `json` that
    /// the serde rendering of the report produced.
    fn generate(report: &DiffReport, format: ReportFormat, json: &str) -> (r: Result<String, RvaError>)
        ensures
            r matches Ok(s) && s@ == match format {
                ReportFormat::Html => html_spec(*report),
                ReportFormat::Txt => txt_spec(*report),
                ReportFormat::Json => json@,
            },
    ;
}

/// Renders reports in the three formats.
pub struct DefaultReportGenerator;

impl ReportGenerator for DefaultReportGenerator {
    fn generate(report: &DiffReport, format: ReportFormat, json: &str) -> (r: Result<String, RvaError>) {
        match format {
            ReportFormat::Html => Ok(to_html(report)),
            ReportFormat::Txt => Ok(to_txt(report)),
            ReportFormat::Json => Ok(String::from_str(json)),
        }
    }
}

} // verus!
