//! Colored terminal output. Every function returns the text; the caller
//! decides where it goes.
use vstd::prelude::*;
use vstd::utf8::encode_utf8;
use crate::text::{
    chars_of, decimal, decimal_string, digit_char, join, join_strings, push_char,
    push_repeated, repeat_char, spec_to_uppercase, str_eq, to_uppercase,
};

verus! {

pub const RESET: &'static str = "\x1b[0m";
pub const GREEN: &'static str = "\x1b[32m";
pub const YELLOW: &'static str = "\x1b[33m";
pub const RED: &'static str = "\x1b[31m";
pub const CYAN: &'static str = "\x1b[36m";
pub const BLUE: &'static str = "\x1b[34m";
pub const BOLD: &'static str = "\x1b[1m";
pub const DIM: &'static str = "\x1b[2m";

/// Concatenation of three string slices and a message.
fn wrap(a: &str, b: &str, msg: &str, c: &str) -> (r: String)
    ensures
        r@ == a@ + b@ + msg@ + c@,
{
    let mut r = String::new();
    r.append(a);
    r.append(b);
    r.append(msg);
    r.append(c);
    assert(r@ =~= a@ + b@ + msg@ + c@);
    r
}

/// A success line: green, bold, with a check mark.
pub fn success(msg: &str) -> (r: String)
    ensures
        r@ == GREEN@ + BOLD@ + "  ✓ "@ + msg@ + RESET@,
{
    let mut r = wrap(GREEN, BOLD, "  ✓ ", msg);
    r.append(RESET);
    r
}

/// An information line: cyan, with an info sign.
pub fn info(msg: &str) -> (r: String)
    ensures
        r@ == CYAN@ + "  ℹ "@ + msg@ + RESET@,
{
    wrap(CYAN, "  ℹ ", msg, RESET)
}

/// A warning line: yellow, with a warning sign.
pub fn warn(msg: &str) -> (r: String)
    ensures
        r@ == YELLOW@ + "  ⚠ "@ + msg@ + RESET@,
{
    wrap(YELLOW, "  ⚠ ", msg, RESET)
}

/// An error line: red, bold, with a cross.
pub fn error_msg(msg: &str) -> (r: String)
    ensures
        r@ == RED@ + BOLD@ + "  ✗ "@ + msg@ + RESET@,
{
    let mut r = wrap(RED, BOLD, "  ✗ ", msg);
    r.append(RESET);
    r
}

/// A hint line: dim, with an arrow.
pub fn hint(msg: &str) -> (r: String)
    ensures
        r@ == DIM@ + "  → "@ + msg@ + RESET@,
{
    wrap(DIM, "  → ", msg, RESET)
}

/// A section header: bold blue between blank lines.
pub fn header(msg: &str) -> (r: String)
    ensures
        r@ == "\n"@ + BOLD@ + BLUE@ + msg@ + RESET@ + "\n"@,
{
    let mut r = wrap("\n", BOLD, BLUE, msg);
    r.append(RESET);
    r.append("\n");
    r
}

/// A domain name in cyan.
pub fn domain(msg: &str) -> (r: String)
    ensures
        r@ == CYAN@ + msg@ + RESET@,
{
    let mut r = String::new();
    r.append(CYAN);
    r.append(msg);
    r.append(RESET);
    r
}

/// Bold text.
pub fn bold(msg: &str) -> (r: String)
    ensures
        r@ == BOLD@ + msg@ + RESET@,
{
    let mut r = String::new();
    r.append(BOLD);
    r.append(msg);
    r.append(RESET);
    r
}

/// The color of an uppercased risk level.
pub open spec fn color_for_upper(up: Seq<char>) -> Seq<char> {
    if up == "CRITICAL"@ {
        RED@
    } else if up == "HIGH"@ {
        YELLOW@
    } else if up == "MEDIUM"@ {
        CYAN@
    } else if up == "LOW"@ {
        GREEN@
    } else {
        RESET@
    }
}

/// The color for a risk level that is already uppercased.
pub fn risk_color_for_upper(up: &str) -> (r: &'static str)
    ensures
        r@ == color_for_upper(up@),
{
    if str_eq(up, "CRITICAL") {
        RED
    } else if str_eq(up, "HIGH") {
        YELLOW
    } else if str_eq(up, "MEDIUM") {
        CYAN
    } else if str_eq(up, "LOW") {
        GREEN
    } else {
        RESET
    }
}

/// The color for a risk level, matched case-insensitively through
/// `to_uppercase`.
pub fn risk_color(risk: &str) -> (r: &'static str)
    ensures
        r@ == color_for_upper(spec_to_uppercase(risk@)),
{
    let up = to_uppercase(risk);
    risk_color_for_upper(up.as_str())
}

/// A risk level in its color, bold.
pub fn colored_risk(risk: &str) -> (r: String)
    ensures
        r@ == color_for_upper(spec_to_uppercase(risk@)) + BOLD@ + risk@ + RESET@,
{
    let color = risk_color(risk);
    wrap(color, BOLD, risk, RESET)
}

/// How the reason a domain was resolved is shown: MonoGraph's inferences
/// in magenta, co-changes in yellow, any other reason as it is.
pub open spec fn source_label_spec(reason: Seq<char>) -> Seq<char> {
    if reason == "ai_inferred"@ {
        "\x1b[35mai_inferred\x1b[0m"@
    } else if reason == "co_change"@ {
        "\x1b[33mco_change\x1b[0m"@
    } else {
        reason
    }
}

/// The shown form of a resolution reason.
pub fn source_label(reason: &str) -> (r: String)
    ensures
        r@ == source_label_spec(reason@),
{
    if str_eq(reason, "ai_inferred") {
        String::from_str("\x1b[35mai_inferred\x1b[0m")
    } else if str_eq(reason, "co_change") {
        String::from_str("\x1b[33mco_change\x1b[0m")
    } else {
        String::from_str(reason)
    }
}

/// The tree connector of edge `i` of `count`: a corner for the last one,
/// a tee for the others.
pub open spec fn edge_connector_spec(i: int, count: int) -> Seq<char> {
    if count > 0 && i == count - 1 {
        "└── "@
    } else {
        "├── "@
    }
}

/// The tree connector drawn before edge `i` of `count`.
pub fn edge_connector(i: usize, count: usize) -> (r: &'static str)
    ensures
        r@ == edge_connector_spec(i as int, count as int),
{
    if count > 0 && i == count - 1 {
        "└── "
    } else {
        "├── "
    }
}

/// The color and label of a dependency edge by its type: imports in green,
/// co-changes in yellow as `co-change`, another type uncolored as it is,
/// and no type uncolored as `dep`.
pub open spec fn edge_style_spec(edge_type: Option<Seq<char>>) -> (Seq<char>, Seq<char>) {
    match edge_type {
        Some(t) => if t == "import"@ {
            (GREEN@, "import"@)
        } else if t == "cochange"@ {
            (YELLOW@, "co-change"@)
        } else {
            (RESET@, t)
        },
        None => (RESET@, "dep"@),
    }
}

/// The color and label a dependency edge is drawn with.
pub fn edge_style(edge_type: Option<&str>) -> (r: (&'static str, String))
    ensures
        (r.0@, r.1@) == edge_style_spec(
            match edge_type {
                Some(t) => Some(t@),
                None => None,
            },
        ),
{
    match edge_type {
        Some(t) => if str_eq(t, "import") {
            (GREEN, String::from_str("import"))
        } else if str_eq(t, "cochange") {
            (YELLOW, String::from_str("co-change"))
        } else {
            (RESET, String::from_str(t))
        },
        None => (RESET, String::from_str("dep")),
    }
}

/// Digits grouped by three from the right, with commas between groups.
pub open spec fn with_commas(d: Seq<char>) -> Seq<char>
    decreases d.len(),
{
    if d.len() <= 3 {
        d
    } else {
        with_commas(d.take(d.len() - 3)) + seq![','] + d.skip(d.len() - 3)
    }
}

/// The three digits of `r` in `0..1000`, zero-padded.
pub open spec fn three_digits(r: int) -> Seq<char> {
    seq![digit_char(r / 100), digit_char((r / 10) % 10), digit_char(r % 10)]
}

proof fn lemma_decimal_len(n: nat)
    ensures
        decimal(n).len() >= 1,
        n < 10 ==> decimal(n).len() == 1,
        10 <= n < 100 ==> decimal(n).len() == 2,
        100 <= n < 1000 ==> decimal(n).len() == 3,
        n >= 1000 ==> decimal(n).len() > 3,
    decreases n,
{
    if n >= 10 {
        lemma_decimal_len(n / 10);
        assert(decimal(n).len() == decimal(n / 10).len() + 1);
    }
}

proof fn lemma_decimal_split(n: nat)
    requires
        n >= 1000,
    ensures
        decimal(n) == decimal(n / 1000) + three_digits((n % 1000) as int),
{
    let a = n / 10;
    let b = a / 10;
    let c = b / 10;
    assert(c == n / 1000);
    assert(a % 10 == ((n % 1000) / 10) % 10);
    assert(b % 10 == (n % 1000) / 100);
    assert(n % 10 == (n % 1000) % 10);
    assert(decimal(n) == decimal(a).push(digit_char((n % 10) as int)));
    assert(decimal(a) == decimal(b).push(digit_char((a % 10) as int)));
    assert(decimal(b) == decimal(c).push(digit_char((b % 10) as int)));
    assert(decimal(n) =~= decimal(n / 1000) + three_digits((n % 1000) as int));
}

/// Three zero-padded digits.
fn push_three_digits(s: &mut String, r: usize)
    requires
        r < 1000,
    ensures
        final(s)@ == old(s)@ + three_digits(r as int),
{
    let ghost start = s@;
    push_char(s, (48u8 + (r / 100) as u8) as char);
    push_char(s, (48u8 + ((r / 10) % 10) as u8) as char);
    push_char(s, (48u8 + (r % 10) as u8) as char);
    assert(s@ =~= start + three_digits(r as int));
}

/// A count with commas between groups of three digits (1234567 is
/// "1,234,567").
pub fn format_number(n: usize) -> (r: String)
    ensures
        r@ == with_commas(decimal(n as nat)),
    decreases n,
{
    proof {
        lemma_decimal_len(n as nat);
    }
    if n < 1000 {
        return decimal_string(n);
    }
    let mut r = format_number(n / 1000);
    push_char(&mut r, ',');
    push_three_digits(&mut r, n % 1000);
    proof {
        let d = decimal(n as nat);
        lemma_decimal_split(n as nat);
        assert(d.take(d.len() - 3) =~= decimal((n / 1000) as nat));
        assert(d.skip(d.len() - 3) =~= three_digits((n % 1000) as int));
    }
    r
}

/// The number of characters of `s` outside ANSI escape sequences, where an
/// escape runs from `\x1b` through the next `m`; `in_escape` says whether
/// `s` starts inside one.
pub open spec fn visible_len_from(s: Seq<char>, in_escape: bool) -> nat
    decreases s.len(),
{
    if s.len() == 0 {
        0
    } else if in_escape {
        visible_len_from(s.drop_first(), s[0] != 'm')
    } else if s[0] == '\x1b' {
        visible_len_from(s.drop_first(), true)
    } else {
        1 + visible_len_from(s.drop_first(), false)
    }
}

/// The displayed length of `s`: its characters outside ANSI color codes.
pub open spec fn visible_len(s: Seq<char>) -> nat {
    visible_len_from(s, false)
}

proof fn lemma_visible_len_bound(s: Seq<char>, e: bool)
    ensures
        visible_len_from(s, e) <= s.len(),
    decreases s.len(),
{
    if s.len() > 0 {
        lemma_visible_len_bound(s.drop_first(), s[0] != 'm');
        lemma_visible_len_bound(s.drop_first(), true);
        lemma_visible_len_bound(s.drop_first(), false);
    }
}

/// The displayed length of a string, not counting ANSI color codes.
fn strip_ansi_len(s: &str) -> (r: usize)
    ensures
        r == visible_len(s@),
{
    let cs = chars_of(s);
    let mut len: usize = 0;
    let mut in_escape = false;
    let mut i: usize = 0;
    proof {
        assert(cs@.skip(0) =~= cs@);
        lemma_visible_len_bound(cs@, false);
    }
    while i < cs.len()
        invariant
            cs@ == s@,
            i <= cs@.len(),
            len + visible_len_from(cs@.skip(i as int), in_escape) == visible_len(s@),
            len <= i,
        decreases cs@.len() - i,
    {
        let ch = cs[i];
        assert(cs@.skip(i as int).drop_first() =~= cs@.skip(i + 1));
        assert(cs@.skip(i as int)[0] == ch);
        if in_escape {
            if ch == 'm' {
                in_escape = false;
            }
        } else if ch == '\x1b' {
            in_escape = true;
        } else {
            len = len + 1;
        }
        i = i + 1;
    }
    len
}

/// The width of column `i` after `k` rows: the byte length of its header,
/// raised to the displayed length of any longer cell in that column.
pub open spec fn column_width(headers: Seq<Seq<char>>, rows: Seq<Seq<Seq<char>>>, i: int, k: int) -> nat
    decreases k,
{
    if k <= 0 {
        encode_utf8(headers[i]).len()
    } else {
        let w = column_width(headers, rows, i, k - 1);
        let row = rows[k - 1];
        if i < row.len() && visible_len(row[i]) > w {
            visible_len(row[i])
        } else {
            w
        }
    }
}

/// The column widths of a table.
pub open spec fn column_widths(headers: Seq<Seq<char>>, rows: Seq<Seq<Seq<char>>>) -> Seq<nat> {
    Seq::new(headers.len(), |i: int| column_width(headers, rows, i, rows.len() as int))
}

/// `s` followed by spaces up to `w` characters.
pub open spec fn pad_right(s: Seq<char>, w: nat) -> Seq<char> {
    s + repeat_char(' ', if w > s.len() { (w - s.len()) as nat } else { 0 })
}

/// A row cell followed by spaces up to width `w` of displayed characters.
pub open spec fn pad_cell(cell: Seq<char>, w: nat) -> Seq<char> {
    cell + repeat_char(' ', if w > visible_len(cell) { (w - visible_len(cell)) as nat } else { 0 })
}

/// One line of the table: two spaces, the pieces joined by two spaces, a
/// line break.
pub open spec fn table_line(pieces: Seq<Seq<char>>) -> Seq<char> {
    "  "@ + join(pieces, "  "@) + "\n"@
}

/// The line of a data row; a cell beyond the header columns gets no padding.
pub open spec fn row_line(row: Seq<Seq<char>>, widths: Seq<nat>) -> Seq<char> {
    table_line(
        Seq::new(
            row.len(),
            |i: int| pad_cell(row[i], if i < widths.len() { widths[i] } else { 0 }),
        ),
    )
}

/// The lines of the data rows.
pub open spec fn rows_text(rows: Seq<Seq<Seq<char>>>, widths: Seq<nat>) -> Seq<char>
    decreases rows.len(),
{
    if rows.len() == 0 {
        Seq::empty()
    } else {
        rows_text(rows.drop_last(), widths) + row_line(rows.last(), widths)
    }
}

/// The rendered table: a bold header line padded to the column widths, a
/// line of box-drawing rules, then one line per row. No headers, no text.
pub open spec fn render_table(headers: Seq<Seq<char>>, rows: Seq<Seq<Seq<char>>>) -> Seq<char> {
    if headers.len() == 0 {
        Seq::empty()
    } else {
        table_layout(headers, rows, column_widths(headers, rows))
    }
}

/// The header line, the rule and the row lines, laid out at widths `w`.
pub open spec fn table_layout(headers: Seq<Seq<char>>, rows: Seq<Seq<Seq<char>>>, w: Seq<nat>) -> Seq<char> {
    table_line(Seq::new(headers.len(), |i: int| BOLD@ + pad_right(headers[i], w[i]) + RESET@))
        + table_line(Seq::new(w.len(), |i: int| repeat_char('─', w[i])))
        + rows_text(rows, w)
}

/// A text table with a header line and left-aligned columns.
pub struct Table {
    headers: Vec<String>,
    rows: Vec<Vec<String>>,
}

impl Table {
    /// The header texts.
    pub closed spec fn header_texts(&self) -> Seq<Seq<char>> {
        self.headers.deep_view()
    }

    /// The rows' cell texts.
    pub closed spec fn row_texts(&self) -> Seq<Seq<Seq<char>>> {
        self.rows.deep_view()
    }

    /// A table with the given headers and no rows.
    pub fn new(headers: Vec<&str>) -> (t: Self)
        ensures
            t.header_texts() == headers.deep_view(),
            t.row_texts() == Seq::<Seq<Seq<char>>>::empty(),
    {
        let mut hs: Vec<String> = Vec::new();
        let mut i: usize = 0;
        while i < headers.len()
            invariant
                i <= headers@.len(),
                hs.deep_view() == headers.deep_view().take(i as int),
            decreases headers@.len() - i,
        {
            let h = String::from_str(headers[i]);
            let ghost old_hs = hs.deep_view();
            assert(headers.deep_view()[i as int] == headers@[i as int]@);
            hs.push(h);
            assert(hs.deep_view() =~= old_hs.push(headers@[i as int]@));
            assert(hs.deep_view() =~= headers.deep_view().take(i + 1));
            i = i + 1;
        }
        assert(headers.deep_view().take(i as int) =~= headers.deep_view());
        let t = Table { headers: hs, rows: Vec::new() };
        assert(t.row_texts() =~= Seq::<Seq<Seq<char>>>::empty());
        t
    }

    /// Appends a row.
    pub fn add_row(&mut self, row: Vec<String>)
        ensures
            final(self).header_texts() == old(self).header_texts(),
            final(self).row_texts() == old(self).row_texts().push(row.deep_view()),
    {
        let ghost old_rows = self.rows.deep_view();
        self.rows.push(row);
        assert(self.rows.deep_view() =~= old_rows.push(row.deep_view()));
    }
}

/// One table line from its pieces.
fn table_line_string(pieces: &Vec<String>) -> (r: String)
    ensures
        r@ == table_line(pieces.deep_view()),
{
    let mut r = String::new();
    r.append("  ");
    let j = join_strings(pieces, "  ");
    r.append(j.as_str());
    r.append("\n");
    r
}

/// The widths as numbers.
pub open spec fn nat_widths(widths: Seq<usize>) -> Seq<nat> {
    Seq::new(widths.len(), |i: int| widths[i] as nat)
}

/// The line of one data row.
fn row_line_string(row: &Vec<String>, widths: &Vec<usize>) -> (r: String)
    ensures
        r@ == row_line(row.deep_view(), nat_widths(widths@)),
{
    let ghost wv = nat_widths(widths@);
    let mut pieces: Vec<String> = Vec::new();
    let mut i: usize = 0;
    while i < row.len()
        invariant
            wv == nat_widths(widths@),
            i <= row@.len(),
            pieces.deep_view() =~= Seq::new(
                i as nat,
                |j: int| pad_cell(row.deep_view()[j], if j < wv.len() { wv[j] } else { 0 }),
            ),
        decreases row@.len() - i,
    {
        let w: usize = if i < widths.len() { widths[i] } else { 0 };
        let cell = row[i].as_str();
        let vis = strip_ansi_len(cell);
        let mut piece = String::from_str(cell);
        let pad: usize = if w > vis { w - vis } else { 0 };
        push_repeated(&mut piece, ' ', pad);
        let ghost old_p = pieces.deep_view();
        assert(row.deep_view()[i as int] == row@[i as int]@);
        pieces.push(piece);
        assert(pieces.deep_view() =~= old_p.push(
            pad_cell(row.deep_view()[i as int], if i < wv.len() { wv[i as int] } else { 0 }),
        ));
        i = i + 1;
    }
    table_line_string(&pieces)
}

impl Table {
    /// The column widths, as `render` computes them.
    fn compute_widths(&self) -> (w: Vec<usize>)
        ensures
            nat_widths(w@) == column_widths(self.header_texts(), self.row_texts()),
    {
        let ghost hv = self.headers.deep_view();
        let ghost rv = self.rows.deep_view();
        let mut widths: Vec<usize> = Vec::new();
        let mut i: usize = 0;
        while i < self.headers.len()
            invariant
                hv == self.headers.deep_view(),
                i <= hv.len(),
                widths@.len() == i,
                forall|j: int| 0 <= j < i ==> widths@[j] == column_width(hv, rv, j, 0),
            decreases hv.len() - i,
        {
            assert(hv[i as int] == self.headers@[i as int]@);
            widths.push(self.headers[i].as_str().as_bytes().len());
            i = i + 1;
        }
        let mut k: usize = 0;
        while k < self.rows.len()
            invariant
                hv == self.headers.deep_view(),
                rv == self.rows.deep_view(),
                k <= rv.len(),
                widths@.len() == hv.len(),
                forall|j: int| 0 <= j < widths@.len() ==> widths@[j] == column_width(hv, rv, j, k as int),
            decreases rv.len() - k,
        {
            let row = &self.rows[k];
            assert(rv[k as int] == row.deep_view());
            let mut c: usize = 0;
            while c < row.len()
                invariant
                    hv == self.headers.deep_view(),
                    rv == self.rows.deep_view(),
                    k < rv.len(),
                    rv[k as int] == row.deep_view(),
                    c <= row@.len(),
                    widths@.len() == hv.len(),
                    forall|j: int| 0 <= j < c && j < widths@.len() ==> widths@[j] == column_width(hv, rv, j, k + 1),
                    forall|j: int| c <= j < widths@.len() ==> widths@[j] == column_width(hv, rv, j, k as int),
                decreases row@.len() - c,
            {
                if c < widths.len() {
                    let l = strip_ansi_len(row[c].as_str());
                    assert(row.deep_view()[c as int] == row@[c as int]@);
                    if l > widths[c] {
                        widths.set(c, l);
                    }
                }
                c = c + 1;
            }
            k = k + 1;
        }
        assert(nat_widths(widths@) =~= column_widths(hv, rv));
        widths
    }

    /// Renders the table: a bold header line, a rule, then the rows, with
    /// every column as wide as its header or its widest cell, ANSI color
    /// codes not counted. A table without headers renders as nothing.
    pub fn render(&self) -> (r: String)
        ensures
            r@ == render_table(self.header_texts(), self.row_texts()),
    {
        if self.headers.len() == 0 {
            let r = String::new();
            assert(r@ =~= Seq::<char>::empty());
            return r;
        }
        let ghost hv = self.headers.deep_view();
        let ghost rv = self.rows.deep_view();
        let widths = self.compute_widths();
        let ghost wv = column_widths(hv, rv);
        let mut head: Vec<String> = Vec::new();
        let mut rule: Vec<String> = Vec::new();
        assert(nat_widths(widths@).len() == widths@.len());
        let mut i: usize = 0;
        while i < self.headers.len()
            invariant
                hv == self.headers.deep_view(),
                wv == column_widths(hv, rv),
                wv == nat_widths(widths@),
                widths@.len() == hv.len(),
                i <= hv.len(),
                head.deep_view() =~= Seq::new(
                    i as nat,
                    |j: int| BOLD@ + pad_right(hv[j], wv[j]) + RESET@,
                ),
                rule.deep_view() =~= Seq::new(i as nat, |j: int| repeat_char('─', wv[j])),
            decreases hv.len() - i,
        {
            let h = self.headers[i].as_str();
            assert(hv[i as int] == h@);
            let n = h.unicode_len();
            let w = widths[i];
            let mut piece = String::from_str(BOLD);
            piece.append(h);
            push_repeated(&mut piece, ' ', if w > n { w - n } else { 0 });
            piece.append(RESET);
            assert(wv[i as int] == w as nat);
            assert(piece@ =~= BOLD@ + pad_right(hv[i as int], wv[i as int]) + RESET@);
            let ghost old_head = head.deep_view();
            head.push(piece);
            assert(head.deep_view() =~= old_head.push(BOLD@ + pad_right(hv[i as int], wv[i as int]) + RESET@));
            let mut bar = String::new();
            push_repeated(&mut bar, '─', w);
            let ghost old_rule = rule.deep_view();
            rule.push(bar);
            assert(rule.deep_view() =~= old_rule.push(repeat_char('─', wv[i as int])));
            i = i + 1;
        }
        let mut out = table_line_string(&head);
        let rule_line = table_line_string(&rule);
        out.append(rule_line.as_str());
        let ghost prefix = out@;
        let mut k: usize = 0;
        assert(rv.take(0) =~= Seq::<Seq<Seq<char>>>::empty());
        while k < self.rows.len()
            invariant
                rv == self.rows.deep_view(),
                wv == nat_widths(widths@),
                k <= rv.len(),
                out@ == prefix + rows_text(rv.take(k as int), wv),
            decreases rv.len() - k,
        {
            let line = row_line_string(&self.rows[k], &widths);
            assert(rv[k as int] == self.rows@[k as int].deep_view());
            assert(rv.take(k + 1).drop_last() =~= rv.take(k as int));
            out.append(line.as_str());
            assert(out@ =~= prefix + rows_text(rv.take(k + 1), wv));
            k = k + 1;
        }
        assert(rv.take(k as int) =~= rv);
        assert(wv.len() == hv.len());
        out
    }
}

/// The number of line breaks in `s`.
pub open spec fn line_breaks(s: Seq<char>) -> nat
    decreases s.len(),
{
    if s.len() == 0 {
        0
    } else {
        line_breaks(s.drop_last()) + if s.last() == '\n' {
            1nat
        } else {
            0nat
        }
    }
}

/// The number of line breaks inside the pieces, all together.
pub open spec fn breaks_in(parts: Seq<Seq<char>>) -> nat
    decreases parts.len(),
{
    if parts.len() == 0 {
        0
    } else {
        breaks_in(parts.drop_last()) + line_breaks(parts.last())
    }
}

/// The number of line breaks that the lines of `rows` hold: one per row,
/// and those inside its cells.
pub open spec fn rows_breaks(rows: Seq<Seq<Seq<char>>>) -> nat
    decreases rows.len(),
{
    if rows.len() == 0 {
        0
    } else {
        rows_breaks(rows.drop_last()) + 1 + breaks_in(rows.last())
    }
}

proof fn lemma_line_breaks_add(a: Seq<char>, b: Seq<char>)
    ensures
        line_breaks(a + b) == line_breaks(a) + line_breaks(b),
    decreases b.len(),
{
    if b.len() == 0 {
        assert(a + b =~= a);
    } else {
        lemma_line_breaks_add(a, b.drop_last());
        assert((a + b).drop_last() =~= a + b.drop_last());
        assert((a + b).last() == b.last());
    }
}

proof fn lemma_no_line_breaks(s: Seq<char>)
    requires
        forall|i: int| 0 <= i < s.len() ==> s[i] != '\n',
    ensures
        line_breaks(s) == 0,
    decreases s.len(),
{
    if s.len() > 0 {
        lemma_no_line_breaks(s.drop_last());
    }
}

proof fn lemma_breaks_in_pointwise(a: Seq<Seq<char>>, b: Seq<Seq<char>>)
    requires
        a.len() == b.len(),
        forall|i: int| 0 <= i < a.len() ==> line_breaks(#[trigger] a[i]) == line_breaks(b[i]),
    ensures
        breaks_in(a) == breaks_in(b),
    decreases a.len(),
{
    if a.len() > 0 {
        lemma_breaks_in_pointwise(a.drop_last(), b.drop_last());
        assert(line_breaks(a[a.len() - 1]) == line_breaks(b[b.len() - 1]));
    }
}

proof fn lemma_breaks_in_zero(a: Seq<Seq<char>>)
    requires
        forall|i: int| 0 <= i < a.len() ==> line_breaks(#[trigger] a[i]) == 0,
    ensures
        breaks_in(a) == 0,
    decreases a.len(),
{
    if a.len() > 0 {
        lemma_breaks_in_zero(a.drop_last());
        assert(line_breaks(a[a.len() - 1]) == 0);
    }
}

proof fn lemma_join_breaks(parts: Seq<Seq<char>>, sep: Seq<char>)
    requires
        line_breaks(sep) == 0,
    ensures
        line_breaks(join(parts, sep)) == breaks_in(parts),
    decreases parts.len(),
{
    if parts.len() == 1 {
        assert(parts.drop_last() =~= Seq::<Seq<char>>::empty());
        assert(breaks_in(parts.drop_last()) == 0);
        assert(join(parts, sep) == parts[0]);
    } else if parts.len() > 1 {
        lemma_join_breaks(parts.drop_last(), sep);
        assert(join(parts, sep) == join(parts.drop_last(), sep) + sep + parts.last());
        lemma_line_breaks_add(join(parts.drop_last(), sep), sep);
        lemma_line_breaks_add(join(parts.drop_last(), sep) + sep, parts.last());
    }
}

proof fn lemma_repeat_no_breaks(c: char, n: nat)
    requires
        c != '\n',
    ensures
        line_breaks(repeat_char(c, n)) == 0,
{
    lemma_no_line_breaks(repeat_char(c, n));
}

proof fn lemma_table_line_breaks(pieces: Seq<Seq<char>>)
    ensures
        line_breaks(table_line(pieces)) == breaks_in(pieces) + 1,
{
    reveal_strlit("  ");
    reveal_strlit("\n");
    lemma_no_line_breaks("  "@);
    lemma_join_breaks(pieces, "  "@);
    lemma_line_breaks_add("  "@, join(pieces, "  "@));
    lemma_line_breaks_add("  "@ + join(pieces, "  "@), "\n"@);
    assert(line_breaks("\n"@) == 1) by {
        assert("\n"@.len() == 1);
        assert("\n"@.drop_last() =~= Seq::<char>::empty());
        assert(line_breaks(Seq::<char>::empty()) == 0);
        assert("\n"@.last() == '\n');
    }
}

proof fn lemma_row_line_breaks(row: Seq<Seq<char>>, w: Seq<nat>)
    ensures
        line_breaks(row_line(row, w)) == breaks_in(row) + 1,
{
    let pieces = Seq::new(row.len(), |i: int| pad_cell(row[i], if i < w.len() { w[i] } else { 0 }));
    assert forall|i: int| 0 <= i < pieces.len() implies line_breaks(#[trigger] pieces[i]) == line_breaks(row[i]) by {
        let wi: nat = if i < w.len() { w[i] } else { 0 };
        let n: nat = if wi > visible_len(row[i]) { (wi - visible_len(row[i])) as nat } else { 0 };
        lemma_repeat_no_breaks(' ', n);
        lemma_line_breaks_add(row[i], repeat_char(' ', n));
    }
    lemma_breaks_in_pointwise(pieces, row);
    lemma_table_line_breaks(pieces);
}

proof fn lemma_rows_text_breaks(rows: Seq<Seq<Seq<char>>>, w: Seq<nat>)
    ensures
        line_breaks(rows_text(rows, w)) == rows_breaks(rows),
    decreases rows.len(),
{
    if rows.len() > 0 {
        lemma_rows_text_breaks(rows.drop_last(), w);
        lemma_row_line_breaks(rows.last(), w);
        lemma_line_breaks_add(rows_text(rows.drop_last(), w), row_line(rows.last(), w));
    }
}

/// The line breaks of a laid-out table do not depend on the widths: one
/// for the header line, one for the rule, one per row, and those inside
/// headers and cells.
proof fn lemma_layout_breaks(headers: Seq<Seq<char>>, rows: Seq<Seq<Seq<char>>>, w: Seq<nat>)
    requires
        w.len() == headers.len(),
    ensures
        line_breaks(table_layout(headers, rows, w)) == breaks_in(headers) + 2 + rows_breaks(rows),
{
    let head = Seq::new(headers.len(), |i: int| BOLD@ + pad_right(headers[i], w[i]) + RESET@);
    let rule = Seq::new(w.len(), |i: int| repeat_char('─', w[i]));
    reveal_strlit("\x1b[1m");
    reveal_strlit("\x1b[0m");
    lemma_no_line_breaks(BOLD@);
    lemma_no_line_breaks(RESET@);
    assert forall|i: int| 0 <= i < head.len() implies line_breaks(#[trigger] head[i]) == line_breaks(headers[i]) by {
        let n: nat = if w[i] > headers[i].len() { (w[i] - headers[i].len()) as nat } else { 0 };
        lemma_repeat_no_breaks(' ', n);
        lemma_line_breaks_add(headers[i], repeat_char(' ', n));
        lemma_line_breaks_add(BOLD@, pad_right(headers[i], w[i]));
        lemma_line_breaks_add(BOLD@ + pad_right(headers[i], w[i]), RESET@);
    }
    lemma_breaks_in_pointwise(head, headers);
    assert forall|i: int| 0 <= i < rule.len() implies line_breaks(#[trigger] rule[i]) == 0 by {
        lemma_repeat_no_breaks('─', w[i]);
    }
    lemma_breaks_in_zero(rule);
    lemma_table_line_breaks(head);
    lemma_table_line_breaks(rule);
    lemma_rows_text_breaks(rows, w);
    lemma_line_breaks_add(table_line(head), table_line(rule));
    lemma_line_breaks_add(table_line(head) + table_line(rule), rows_text(rows, w));
}

proof fn lemma_join_starts(parts: Seq<Seq<char>>, sep: Seq<char>)
    requires
        parts.len() > 0,
    ensures
        parts[0].is_prefix_of(join(parts, sep)),
    decreases parts.len(),
{
    if parts.len() > 1 {
        lemma_join_starts(parts.drop_last(), sep);
        let j = join(parts.drop_last(), sep);
        assert(parts.drop_last()[0] == parts[0]);
        assert(parts[0] =~= (j + sep + parts.last()).subrange(0, parts[0].len() as int));
    }
}

/// Adding a row appends its line. The table rendered after `add_row` is
/// the header line, the rule and the earlier rows in their order, laid
/// out at the new column widths, followed by the new row's line; that
/// line starts with two spaces and the row's first cell. The rendering
/// has exactly one more line break than before, plus any inside the new
/// row's cells.
pub proof fn lemma_add_row_render(headers: Seq<Seq<char>>, rows: Seq<Seq<Seq<char>>>, row: Seq<Seq<char>>)
    requires
        headers.len() > 0,
    ensures
        ({
            let w = column_widths(headers, rows.push(row));
            &&& render_table(headers, rows.push(row)) == table_layout(headers, rows, w) + row_line(row, w)
            &&& row.len() > 0 ==> ("  "@ + row[0]).is_prefix_of(row_line(row, w))
        }),
        line_breaks(render_table(headers, rows.push(row))) == line_breaks(render_table(headers, rows))
            + 1 + breaks_in(row),
{
    let rows2 = rows.push(row);
    let w = column_widths(headers, rows2);
    assert(rows2.drop_last() =~= rows);
    assert(rows_text(rows2, w) == rows_text(rows, w) + row_line(row, w));
    assert(table_layout(headers, rows2, w) =~= table_layout(headers, rows, w) + row_line(row, w));
    if row.len() > 0 {
        let pieces = Seq::new(row.len(), |i: int| pad_cell(row[i], if i < w.len() { w[i] } else { 0 }));
        lemma_join_starts(pieces, "  "@);
        let l = row_line(row, w);
        let p = "  "@ + row[0];
        assert(pieces[0].subrange(0, row[0].len() as int) =~= row[0]);
        assert(p =~= l.subrange(0, p.len() as int));
    }
    lemma_layout_breaks(headers, rows2, w);
    lemma_layout_breaks(headers, rows, column_widths(headers, rows));
    assert(rows_breaks(rows2) == rows_breaks(rows) + 1 + breaks_in(row));
}

/// A column is as wide as the byte length of its header and the displayed
/// length of each of its cells, and no wider than the widest of these.
pub proof fn lemma_column_width_bounds(
    headers: Seq<Seq<char>>,
    rows: Seq<Seq<Seq<char>>>,
    i: int,
    k: int,
)
    requires
        0 <= i < headers.len(),
        0 <= k <= rows.len(),
    ensures
        column_width(headers, rows, i, k) >= encode_utf8(headers[i]).len(),
        forall|r: int|
            0 <= r < k && i < rows[r].len() ==> column_width(headers, rows, i, k) >= visible_len(
                #[trigger] rows[r][i],
            ),
        column_width(headers, rows, i, k) == encode_utf8(headers[i]).len() || exists|r: int|
            0 <= r < k && i < rows[r].len() && column_width(headers, rows, i, k) == visible_len(
                #[trigger] rows[r][i],
            ),
    decreases k,
{
    if k > 0 {
        lemma_column_width_bounds(headers, rows, i, k - 1);
        let w = column_width(headers, rows, i, k - 1);
        if i < rows[k - 1].len() && visible_len(rows[k - 1][i]) > w {
            assert(column_width(headers, rows, i, k) == visible_len(rows[k - 1][i]));
        } else if column_width(headers, rows, i, k) != encode_utf8(headers[i]).len() {
            let r = choose|r: int|
                0 <= r < k - 1 && i < rows[r].len() && w == visible_len(#[trigger] rows[r][i]);
            assert(0 <= r < k && i < rows[r].len() && column_width(headers, rows, i, k) == visible_len(
                rows[r][i],
            ));
        }
    }
}

} // verus!
