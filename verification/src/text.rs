//! Text diffing on top of the engine: character, word and line tokenizers,
//! changeset containers, and colored rendering of edit scripts.

use vstd::prelude::*;

use vstd::string::StrSliceExecFns;
use vstd::string::StringExecFns;

use crate::basic;
use crate::basic::DiffElemSpec;
use crate::basic::DiffOp;
use crate::basic::SpecOp;

verus! {

/// What `char::is_alphanumeric` returns: a pure Unicode classification of
/// the character alone.
pub uninterp spec fn is_alnum(c: char) -> bool;

/// What `char::is_whitespace` returns: a pure Unicode classification of the
/// character alone.
pub uninterp spec fn is_white(c: char) -> bool;

/// Relies on char::is_alphanumeric: a classification of the character alone.
#[verifier::external_body]
fn char_is_alphanumeric(c: char) -> (r: bool)
    ensures
        r == is_alnum(c),
{
    c.is_alphanumeric()
}

/// Relies on char::is_whitespace: a classification of the character alone.
#[verifier::external_body]
fn char_is_whitespace(c: char) -> (r: bool)
    ensures
        r == is_white(c),
{
    c.is_whitespace()
}

/// An SGR escape around a piece of text: the control sequence introducer,
/// the given codes, `m`, the text, and the reset sequence.
pub open spec fn ansi_wrap(codes: Seq<char>, s: Seq<char>) -> Seq<char> {
    seq!['\u{1b}', '['] + codes + seq!['m'] + s + seq!['\u{1b}', '[', '0', 'm']
}

/// Green foreground.
pub open spec fn green_text(s: Seq<char>) -> Seq<char> {
    ansi_wrap(seq!['3', '2'], s)
}

/// Red foreground.
pub open spec fn red_text(s: Seq<char>) -> Seq<char> {
    ansi_wrap(seq!['3', '1'], s)
}

/// Struck-through red foreground.
pub open spec fn red_strike_text(s: Seq<char>) -> Seq<char> {
    ansi_wrap(seq!['9', ';', '3', '1'], s)
}

/// Relies on ansi_term's Colour::paint and ANSIString's Display: the prefix
/// `ESC [ 3 2 m`, the text unchanged, then the reset `ESC [ 0 m`.
#[verifier::external_body]
fn paint_green(s: &str) -> (r: String)
    ensures
        r@ == green_text(s@),
{
    ansi_term::Colour::Green.paint(s).to_string()
}

/// Relies on ansi_term's Colour::paint and ANSIString's Display: the prefix
/// `ESC [ 3 1 m`, the text unchanged, then the reset `ESC [ 0 m`.
#[verifier::external_body]
fn paint_red(s: &str) -> (r: String)
    ensures
        r@ == red_text(s@),
{
    ansi_term::Colour::Red.paint(s).to_string()
}

/// Relies on ansi_term's Style::paint and ANSIString's Display: the
/// strikethrough code `9` is written before the foreground code `31`, so the
/// prefix is `ESC [ 9 ; 3 1 m`, then the text, then the reset.
#[verifier::external_body]
fn paint_red_strikethrough(s: &str) -> (r: String)
    ensures
        r@ == red_strike_text(s@),
{
    ansi_term::Colour::Red.strikethrough().paint(s).to_string()
}

/// The views of a list of strings.
pub open spec fn strs_view(v: Seq<String>) -> Seq<Seq<char>> {
    v.map_values(|s: String| s@)
}

/// The parts joined with the separator between consecutive parts.
pub open spec fn join_sep(parts: Seq<Seq<char>>, sep: Seq<char>) -> Seq<char>
    decreases parts.len(),
{
    if parts.len() == 0 {
        Seq::empty()
    } else if parts.len() == 1 {
        parts[0]
    } else {
        parts[0] + sep + join_sep(parts.skip(1), sep)
    }
}

proof fn lemma_join_push(parts: Seq<Seq<char>>, p: Seq<char>, sep: Seq<char>)
    ensures
        parts.len() == 0 ==> join_sep(parts.push(p), sep) == p,
        parts.len() > 0 ==> join_sep(parts.push(p), sep) == join_sep(parts, sep) + sep + p,
    decreases parts.len(),
{
    if parts.len() == 0 {
        assert(parts.push(p)[0] == p);
    } else {
        lemma_join_push(parts.skip(1), p, sep);
        assert(parts.push(p).skip(1) =~= parts.skip(1).push(p));
        assert(parts.push(p)[0] == parts[0]);
        if parts.len() == 1 {
            assert(parts.skip(1) =~= Seq::<Seq<char>>::empty());
            assert(join_sep(parts.skip(1).push(p), sep) == p);
        } else {
            assert((parts[0] + sep + (join_sep(parts.skip(1), sep) + sep + p)) =~= ((parts[0] + sep
                + join_sep(parts.skip(1), sep)) + sep + p));
        }
    }
}

/// Join the strings of `v[from..to]` with the given separator.
#[verifier::loop_isolation(false)]
fn join_range(v: &Vec<String>, from: usize, to: usize, sep: &str) -> (r: String)
    requires
        from <= to <= v@.len(),
    ensures
        r@ == join_sep(strs_view(v@.subrange(from as int, to as int)), sep@),
{
    let mut r = String::new();
    let mut idx = from;
    proof {
        assert(strs_view(v@.subrange(from as int, from as int)) =~= Seq::<Seq<char>>::empty());
    }
    while idx < to
        invariant
            from <= idx <= to,
            r@ == join_sep(strs_view(v@.subrange(from as int, idx as int)), sep@),
        decreases to - idx,
    {
        let ghost parts0 = strs_view(v@.subrange(from as int, idx as int));
        if idx > from {
            r.append(sep);
        }
        r.append(v[idx].as_str());
        idx = idx + 1;
        proof {
            lemma_join_push(parts0, v@[idx as int - 1]@, sep@);
            assert(strs_view(v@.subrange(from as int, idx as int)) =~= parts0.push(
                v@[idx as int - 1]@,
            ));
        }
    }
    r
}

/// The word split: maximal runs of alphanumeric characters stay together and
/// every other character is an element of its own.
pub open spec fn split_words_spec(s: Seq<char>) -> Seq<Seq<char>>
    decreases s.len(),
{
    if s.len() == 0 {
        Seq::empty()
    } else {
        let rest = split_words_spec(s.drop_last());
        let c = s.last();
        if is_alnum(c) && rest.len() > 0 && rest.last().len() > 0 && is_alnum(rest.last().last()) {
            rest.update(rest.len() - 1, rest.last().push(c))
        } else {
            rest.push(seq![c])
        }
    }
}

/// Split a string into words and delimiters: runs of alphanumeric
/// characters stay together, and each non-alphanumeric character becomes an
/// element of its own.
#[verifier::loop_isolation(false)]
#[verifier::rlimit(100)]
pub fn split_words(text: &str) -> (r: Vec<String>)
    ensures
        strs_view(r@) == split_words_spec(text@),
{
    let n = text.unicode_len();
    let mut out: Vec<String> = Vec::new();
    let mut in_word = false;
    let mut k: usize = 0;
    proof {
        assert(strs_view(out@) =~= Seq::<Seq<char>>::empty());
        assert(text@.take(0).len() == 0);
        assert(split_words_spec(text@.take(0)) =~= Seq::<Seq<char>>::empty());
    }
    while k < n
        invariant
            k <= n,
            strs_view(out@) == split_words_spec(text@.take(k as int)),
            in_word == (strs_view(out@).len() > 0 && strs_view(out@).last().len() > 0 && is_alnum(
                strs_view(out@).last().last(),
            )),
        decreases n - k,
    {
        let ghost out0 = out@;
        let c = text.get_char(k);
        let piece = text.substring_char(k, k + 1);
        proof {
            assert(text@.take(k as int + 1).drop_last() =~= text@.take(k as int));
            assert(text@.take(k as int + 1).last() == text@[k as int]);
            assert(piece@ =~= seq![c]);
        }
        if char_is_alphanumeric(c) {
            if in_word {
                let mut w = out.pop().unwrap();
                w.append(piece);
                out.push(w);
                proof {
                    assert(w@ =~= strs_view(out0).last().push(c));
                    assert(strs_view(out@) =~= strs_view(out0).update(out0.len() - 1, w@));
                }
            } else {
                out.push(piece.to_owned());
                proof {
                    assert(strs_view(out@) =~= strs_view(out0).push(seq![c]));
                }
            }
            in_word = true;
        } else {
            out.push(piece.to_owned());
            in_word = false;
            proof {
                assert(strs_view(out@) =~= strs_view(out0).push(seq![c]));
            }
        }
        k = k + 1;
    }
    proof {
        assert(text@.take(n as int) =~= text@);
    }
    out
}

/// Each character as an element of its own.
pub open spec fn split_chars_spec(s: Seq<char>) -> Seq<Seq<char>> {
    s.map_values(|c: char| seq![c])
}

/// Split a string into one-character elements.
#[verifier::loop_isolation(false)]
pub fn split_chars(text: &str) -> (r: Vec<String>)
    ensures
        strs_view(r@) == split_chars_spec(text@),
{
    let n = text.unicode_len();
    let mut out: Vec<String> = Vec::new();
    let mut k: usize = 0;
    while k < n
        invariant
            k <= n,
            strs_view(out@) == split_chars_spec(text@.take(k as int)),
        decreases n - k,
    {
        let ghost out0 = out@;
        let piece = text.substring_char(k, k + 1);
        out.push(piece.to_owned());
        k = k + 1;
        proof {
            assert(piece@ =~= seq![text@[k as int - 1]]);
            assert(strs_view(out@) =~= strs_view(out0).push(seq![text@[k as int - 1]]));
            assert(split_chars_spec(text@.take(k as int)) =~= split_chars_spec(
                text@.take(k as int - 1),
            ).push(seq![text@[k as int - 1]]));
        }
    }
    proof {
        assert(text@.take(n as int) =~= text@);
    }
    out
}

/// A line's trailing carriage return, dropped when the line ended at a
/// newline.
pub open spec fn strip_cr(x: Seq<char>) -> Seq<char> {
    if x.len() > 0 && x.last() == '\r' {
        x.drop_last()
    } else {
        x
    }
}

/// The line split of `cur + s`: lines end at each newline, a carriage
/// return directly before a newline is dropped, and a final line without a
/// newline is kept while a trailing newline adds no empty line.
pub open spec fn split_lines_rec(s: Seq<char>, cur: Seq<char>) -> Seq<Seq<char>>
    decreases s.len(),
{
    if s.len() == 0 {
        if cur.len() == 0 {
            Seq::empty()
        } else {
            seq![cur]
        }
    } else if s[0] == '\n' {
        seq![strip_cr(cur)] + split_lines_rec(s.skip(1), Seq::empty())
    } else {
        split_lines_rec(s.skip(1), cur.push(s[0]))
    }
}

/// The line split of a whole string.
pub open spec fn split_lines_spec(s: Seq<char>) -> Seq<Seq<char>> {
    split_lines_rec(s, Seq::empty())
}

/// Split a string into its lines, as `str::lines` does.
#[verifier::loop_isolation(false)]
#[verifier::rlimit(100)]
pub fn split_lines(text: &str) -> (r: Vec<String>)
    ensures
        strs_view(r@) == split_lines_spec(text@),
{
    let n = text.unicode_len();
    let mut out: Vec<String> = Vec::new();
    let mut cur = String::new();
    let mut k: usize = 0;
    proof {
        assert(strs_view(out@) =~= Seq::<Seq<char>>::empty());
        assert(text@.skip(0) =~= text@);
        assert(Seq::<Seq<char>>::empty() + split_lines_rec(text@, Seq::empty()) =~= split_lines_rec(
            text@,
            Seq::empty(),
        ));
    }
    while k < n
        invariant
            k <= n,
            split_lines_spec(text@) == strs_view(out@) + split_lines_rec(
                text@.skip(k as int),
                cur@,
            ),
        decreases n - k,
    {
        let ghost out0 = out@;
        let ghost cur0 = cur@;
        let c = text.get_char(k);
        proof {
            assert(text@.skip(k as int)[0] == text@[k as int]);
            assert(text@.skip(k as int).skip(1) =~= text@.skip(k as int + 1));
        }
        if c == '\n' {
            let mut line = cur;
            if line.as_str().unicode_len() > 0 {
                let last_idx = line.as_str().unicode_len() - 1;
                if line.as_str().get_char(last_idx) == '\r' {
                    let trimmed = line.as_str().substring_char(0, last_idx).to_owned();
                    proof {
                        assert(trimmed@ =~= cur0.drop_last());
                    }
                    line = trimmed;
                }
            }
            proof {
                if cur0.len() == 0 {
                    assert(line@ =~= strip_cr(cur0));
                }
                assert(line@ == strip_cr(cur0));
            }
            out.push(line);
            cur = String::new();
            proof {
                assert(strs_view(out@) =~= strs_view(out0).push(strip_cr(cur0)));
                assert(strs_view(out0).push(strip_cr(cur0)) =~= strs_view(out0) + seq![
                    strip_cr(cur0),
                ]);
                assert(strs_view(out0) + (seq![strip_cr(cur0)] + split_lines_rec(
                    text@.skip(k as int + 1),
                    Seq::empty(),
                )) =~= (strs_view(out0) + seq![strip_cr(cur0)]) + split_lines_rec(
                    text@.skip(k as int + 1),
                    Seq::empty(),
                ));
            }
        } else {
            let piece = text.substring_char(k, k + 1);
            cur.append(piece);
            proof {
                assert(piece@ =~= seq![text@[k as int]]);
                assert(cur@ =~= cur0.push(text@[k as int]));
            }
        }
        k = k + 1;
    }
    proof {
        assert(text@.skip(n as int) =~= Seq::<char>::empty());
    }
    if cur.as_str().unicode_len() > 0 {
        let ghost out0 = out@;
        let ghost cur0 = cur@;
        out.push(cur);
        proof {
            assert(split_lines_rec(Seq::<char>::empty(), cur0) =~= seq![cur0]);
            assert(strs_view(out@) =~= strs_view(out0).push(cur0));
            assert(strs_view(out0) + seq![cur0] =~= strs_view(out0).push(cur0));
        }
    } else {
        proof {
            assert(split_lines_rec(Seq::<char>::empty(), cur@) =~= Seq::<Seq<char>>::empty());
            assert(strs_view(out@) + Seq::<Seq<char>>::empty() =~= strs_view(out@));
        }
    }
    out
}

} // verus!

verus! {

/// One newline character, the separator of line-level rendering.
pub open spec fn nl() -> Seq<char> {
    seq!['\n']
}

/// What one operation contributes to the flat rendering: the equal lines
/// unstyled, removed lines struck through in red, inserted lines in green,
/// and a replacement as a removed entry followed by an inserted entry.
pub open spec fn line_entry(op: SpecOp, av: Seq<Seq<char>>, bv: Seq<Seq<char>>) -> Seq<Seq<char>> {
    if op.is_equal() {
        seq![join_sep(av.subrange(op.old_start(), op.old_start() + op.old_adv()), nl())]
    } else if op.is_remove() {
        seq![
            red_strike_text(
                join_sep(av.subrange(op.old_start(), op.old_start() + op.old_adv()), nl()),
            ),
        ]
    } else if op.is_insert() {
        seq![green_text(join_sep(bv.subrange(op.new_start(), op.new_start() + op.new_adv()), nl()))]
    } else {
        seq![
            red_strike_text(
                join_sep(av.subrange(op.old_start(), op.old_start() + op.old_adv()), nl()),
            ),
            green_text(join_sep(bv.subrange(op.new_start(), op.new_start() + op.new_adv()), nl())),
        ]
    }
}

/// The flat rendering entries of a whole edit script.
pub open spec fn line_entries(ops: Seq<SpecOp>, av: Seq<Seq<char>>, bv: Seq<Seq<char>>) -> Seq<
    Seq<char>,
>
    decreases ops.len(),
{
    if ops.len() == 0 {
        Seq::empty()
    } else {
        line_entry(ops[0], av, bv) + line_entries(ops.skip(1), av, bv)
    }
}

/// Container for a line-by-line text diff and its rendering options.
pub struct LineChangeset {
    pub old: Vec<String>,
    pub new: Vec<String>,
    pub names: Option<(String, String)>,
    pub diff_only: bool,
    pub show_lines: bool,
    pub trim_new_lines: bool,
    pub aling_new_lines: bool,
}

impl LineChangeset {
    /// A changeset over the given line lists, with the documented defaults:
    /// no names, all rows shown, line numbers shown, blank-line trimming on,
    /// alignment off.
    pub fn new(old: Vec<String>, new: Vec<String>) -> (r: LineChangeset)
        ensures
            r.old == old,
            r.new == new,
            r.names is None,
            r.diff_only == false,
            r.show_lines == true,
            r.trim_new_lines == true,
            r.aling_new_lines == false,
    {
        LineChangeset {
            old,
            new,
            names: None,
            diff_only: false,
            show_lines: true,
            trim_new_lines: true,
            aling_new_lines: false,
        }
    }

    /// Sets names for side-by-side diff.
    pub fn names(self, old: &str, new: &str) -> (r: Self)
        ensures
            r.names is Some,
            r.names.unwrap().0@ == old@,
            r.names.unwrap().1@ == new@,
            r.old == self.old,
            r.new == self.new,
            r.diff_only == self.diff_only,
            r.show_lines == self.show_lines,
            r.trim_new_lines == self.trim_new_lines,
            r.aling_new_lines == self.aling_new_lines,
    {
        LineChangeset { names: Some((old.to_owned(), new.to_owned())), ..self }
    }

    /// Show only differences for side-by-side diff.
    pub fn set_diff_only(self, val: bool) -> (r: Self)
        ensures
            r.diff_only == val,
            r.old == self.old,
            r.new == self.new,
            r.names == self.names,
            r.show_lines == self.show_lines,
            r.trim_new_lines == self.trim_new_lines,
            r.aling_new_lines == self.aling_new_lines,
    {
        LineChangeset { diff_only: val, ..self }
    }

    /// Show line numbers in side-by-side diff.
    pub fn set_show_lines(self, val: bool) -> (r: Self)
        ensures
            r.show_lines == val,
            r.old == self.old,
            r.new == self.new,
            r.names == self.names,
            r.diff_only == self.diff_only,
            r.trim_new_lines == self.trim_new_lines,
            r.aling_new_lines == self.aling_new_lines,
    {
        LineChangeset { show_lines: val, ..self }
    }

    /// Trim leading and trailing blank lines in side-by-side diff.
    pub fn set_trim_new_lines(self, val: bool) -> (r: Self)
        ensures
            r.trim_new_lines == val,
            r.old == self.old,
            r.new == self.new,
            r.names == self.names,
            r.diff_only == self.diff_only,
            r.show_lines == self.show_lines,
            r.aling_new_lines == self.aling_new_lines,
    {
        LineChangeset { trim_new_lines: val, ..self }
    }

    /// Align new lines inside the diff.
    pub fn set_aling_new_lines(self, val: bool) -> (r: Self)
        ensures
            r.aling_new_lines == val,
            r.old == self.old,
            r.new == self.new,
            r.names == self.names,
            r.diff_only == self.diff_only,
            r.show_lines == self.show_lines,
            r.trim_new_lines == self.trim_new_lines,
    {
        LineChangeset { aling_new_lines: val, ..self }
    }

    /// The edit script of the two line lists: see `basic::diff`.
    pub fn diff(&self) -> (ops: Vec<DiffOp>)
        ensures
            basic::ops_view(ops@) == basic::diff_spec(self.old@, self.new@),
            basic::ops_chained(
                basic::ops_view(ops@),
                0,
                0,
                self.old@.len() as int,
                self.new@.len() as int,
            ),
            basic::ops_positive(basic::ops_view(ops@)),
            basic::ops_match(basic::ops_view(ops@), self.old@, self.new@),
            basic::ops_coalesced(basic::ops_view(ops@)),
            basic::edit_weight(basic::ops_view(ops@)) == self.old@.len() + self.new@.len() - 2
                * crate::lcs::lcs_len(self.old@, self.new@),
    {
        basic::diff(&self.old, &self.new)
    }

    /// The flat colored rendering: entries per operation, joined by
    /// newlines, removals struck through in red and insertions in green.
    #[verifier::loop_isolation(false)]
    #[verifier::rlimit(100)]
    pub fn format(&self) -> (r: String)
        ensures
            r@ == join_sep(
                line_entries(
                    basic::diff_spec(self.old@, self.new@),
                    strs_view(self.old@),
                    strs_view(self.new@),
                ),
                nl(),
            ),
    {
        let ops = basic::diff(&self.old, &self.new);
        let m = self.old.len();
        let n = self.new.len();
        let ghost opsv = basic::ops_view(ops@);
        let ghost av = strs_view(self.old@);
        let ghost bv = strs_view(self.new@);
        proof {
            basic::lemma_ops_in_bounds(opsv, 0, 0, self.old@.len() as int, self.new@.len() as int);
            reveal_strlit("\n");
            assert("\n"@ =~= nl());
        }
        let mut entries: Vec<String> = Vec::new();
        let mut k: usize = 0;
        proof {
            assert(strs_view(entries@) =~= Seq::<Seq<char>>::empty());
            assert(opsv.skip(0) =~= opsv);
            assert(Seq::<Seq<char>>::empty() + line_entries(opsv, av, bv) =~= line_entries(
                opsv,
                av,
                bv,
            ));
        }
        while k < ops.len()
            invariant
                k <= ops@.len(),
                line_entries(opsv, av, bv) == strs_view(entries@) + line_entries(
                    opsv.skip(k as int),
                    av,
                    bv,
                ),
            decreases ops@.len() - k,
        {
            let ghost entries0 = entries@;
            proof {
                assert(opsv.skip(k as int)[0] == opsv[k as int]);
                assert(opsv.skip(k as int).skip(1) =~= opsv.skip(k as int + 1));
                assert(opsv[k as int] == ops@[k as int]@);
            }
            let op = ops[k];
            proof {
                assert(op@ == opsv[k as int]);
                assert(op@.old_start() + op@.old_adv() <= self.old@.len() as int);
                assert(op@.new_start() + op@.new_adv() <= self.new@.len() as int);
                assert(op@.old_start() >= 0 && op@.new_start() >= 0);
                assert(op@.old_adv() >= 0 && op@.new_adv() >= 0);
                match op {
                    DiffOp::Equal { old_start, new_start, len } => {
                        assert(old_start as int + len as int <= m as int);
                    },
                    DiffOp::Remove { old_start, new_start, len } => {
                        assert(old_start as int + len as int <= m as int);
                    },
                    DiffOp::Insert { old_start, new_start, len } => {
                        assert(new_start as int + len as int <= n as int);
                    },
                    DiffOp::Replace { old_start, old_len, new_start, new_len } => {
                        assert(old_start as int + old_len as int <= m as int);
                        assert(new_start as int + new_len as int <= n as int);
                    },
                }
            }
            match op {
                DiffOp::Equal { old_start, new_start, len } => {
                    proof {
                        assert(strs_view(self.old@.subrange(
                            old_start as int,
                            old_start as int + len as int,
                        )) =~= av.subrange(old_start as int, old_start as int + len as int));
                    }
                    let s = join_range(&self.old, old_start, old_start + len, "\n");
                    entries.push(s);
                },
                DiffOp::Remove { old_start, new_start, len } => {
                    proof {
                        assert(strs_view(self.old@.subrange(
                            old_start as int,
                            old_start as int + len as int,
                        )) =~= av.subrange(old_start as int, old_start as int + len as int));
                    }
                    let s = join_range(&self.old, old_start, old_start + len, "\n");
                    entries.push(paint_red_strikethrough(s.as_str()));
                },
                DiffOp::Insert { old_start, new_start, len } => {
                    proof {
                        assert(strs_view(self.new@.subrange(
                            new_start as int,
                            new_start as int + len as int,
                        )) =~= bv.subrange(new_start as int, new_start as int + len as int));
                    }
                    let s = join_range(&self.new, new_start, new_start + len, "\n");
                    entries.push(paint_green(s.as_str()));
                },
                DiffOp::Replace { old_start, old_len, new_start, new_len } => {
                    proof {
                        assert(strs_view(self.old@.subrange(
                            old_start as int,
                            old_start as int + old_len as int,
                        )) =~= av.subrange(old_start as int, old_start as int + old_len as int));
                        assert(strs_view(self.new@.subrange(
                            new_start as int,
                            new_start as int + new_len as int,
                        )) =~= bv.subrange(new_start as int, new_start as int + new_len as int));
                    }
                    let s1 = join_range(&self.old, old_start, old_start + old_len, "\n");
                    entries.push(paint_red_strikethrough(s1.as_str()));
                    let s2 = join_range(&self.new, new_start, new_start + new_len, "\n");
                    entries.push(paint_green(s2.as_str()));
                },
            }
            k = k + 1;
            proof {
                assert(strs_view(entries@) =~= entries0.map_values(|s: String| s@) + line_entry(
                    opsv[k as int - 1],
                    av,
                    bv,
                ));
                assert((strs_view(entries0) + line_entry(opsv[k as int - 1], av, bv))
                    + line_entries(opsv.skip(k as int), av, bv) =~= strs_view(entries0) + (
                line_entry(opsv[k as int - 1], av, bv) + line_entries(opsv.skip(k as int), av, bv)));
            }
        }
        proof {
            assert(opsv.skip(opsv.len() as int) =~= Seq::<SpecOp>::empty());
            assert(line_entries(Seq::<SpecOp>::empty(), av, bv) =~= Seq::<Seq<char>>::empty());
            assert(strs_view(entries@) + Seq::<Seq<char>>::empty() =~= strs_view(entries@));
        }
        let r = join_range(&entries, 0, entries.len(), "\n");
        proof {
            assert(entries@.subrange(0, entries@.len() as int) =~= entries@);
        }
        r
    }
}

/// Line-level diff of two texts: each side split into its lines.
pub fn diff_lines(old: &str, new: &str) -> (r: LineChangeset)
    ensures
        strs_view(r.old@) == split_lines_spec(old@),
        strs_view(r.new@) == split_lines_spec(new@),
        r.names is None,
        r.diff_only == false,
        r.show_lines == true,
        r.trim_new_lines == true,
        r.aling_new_lines == false,
{
    LineChangeset::new(split_lines(old), split_lines(new))
}

} // verus!

verus! {

/// A terminal style as the SGR codes of its escape prefix, e.g. `"32"` for
/// a green foreground or `"9;31"` for struck-through red.
#[derive(Clone, Debug)]
pub struct InlineStyle {
    pub sgr: String,
}

/// Wrap `s` in the SGR escape with the given codes.
fn sgr_wrap(codes: &str, s: &str) -> (r: String)
    ensures
        r@ == ansi_wrap(codes@, s@),
{
    let mut r = String::new();
    r.append("\u{1b}[");
    r.append(codes);
    r.append("m");
    r.append(s);
    r.append("\u{1b}[0m");
    proof {
        reveal_strlit("\u{1b}[");
        reveal_strlit("m");
        reveal_strlit("\u{1b}[0m");
        assert(r@ =~= ansi_wrap(codes@, s@));
    }
    r
}

/// Every character wrapped in its own escape: whitespace characters get the
/// whitespace style when highlighting is on, all others the plain style.
pub open spec fn styled_chars(s: Seq<char>, st: Seq<char>, wst: Seq<char>, hl: bool) -> Seq<char>
    decreases s.len(),
{
    if s.len() == 0 {
        Seq::empty()
    } else {
        ansi_wrap(
            if hl && is_white(s[0]) {
                wst
            } else {
                st
            },
            seq![s[0]],
        ) + styled_chars(s.skip(1), st, wst, hl)
    }
}

/// Style a string character by character.
#[verifier::loop_isolation(false)]
fn style_string(s: &str, st: &InlineStyle, wst: &InlineStyle, hl: bool) -> (r: String)
    ensures
        r@ == styled_chars(s@, st.sgr@, wst.sgr@, hl),
{
    let n = s.unicode_len();
    let mut r = String::new();
    let mut k: usize = 0;
    proof {
        assert(s@.skip(0) =~= s@);
        assert(Seq::<char>::empty() + styled_chars(s@, st.sgr@, wst.sgr@, hl) =~= styled_chars(
            s@,
            st.sgr@,
            wst.sgr@,
            hl,
        ));
    }
    while k < n
        invariant
            k <= n,
            styled_chars(s@, st.sgr@, wst.sgr@, hl) == r@ + styled_chars(
                s@.skip(k as int),
                st.sgr@,
                wst.sgr@,
                hl,
            ),
        decreases n - k,
    {
        let ghost r0 = r@;
        let c = s.get_char(k);
        let piece = s.substring_char(k, k + 1);
        proof {
            assert(s@.skip(k as int)[0] == s@[k as int]);
            assert(s@.skip(k as int).skip(1) =~= s@.skip(k as int + 1));
            assert(piece@ =~= seq![s@[k as int]]);
        }
        let wrapped = if hl && char_is_whitespace(c) {
            sgr_wrap(wst.sgr.as_str(), piece)
        } else {
            sgr_wrap(st.sgr.as_str(), piece)
        };
        r.append(wrapped.as_str());
        k = k + 1;
        proof {
            assert((r0 + wrapped@) + styled_chars(s@.skip(k as int), st.sgr@, wst.sgr@, hl) =~= r0
                + (wrapped@ + styled_chars(s@.skip(k as int), st.sgr@, wst.sgr@, hl)));
        }
    }
    proof {
        assert(s@.skip(n as int) =~= Seq::<char>::empty());
        assert(r@ + Seq::<char>::empty() =~= r@);
    }
    r
}

/// What one operation contributes to the inline rendering.
pub open spec fn inline_entry(
    op: SpecOp,
    av: Seq<Seq<char>>,
    bv: Seq<Seq<char>>,
    sep: Seq<char>,
    ist: Seq<char>,
    iwst: Seq<char>,
    rst: Seq<char>,
    rwst: Seq<char>,
    hl: bool,
) -> Seq<Seq<char>> {
    if op.is_equal() {
        seq![join_sep(av.subrange(op.old_start(), op.old_start() + op.old_adv()), sep)]
    } else if op.is_remove() {
        seq![
            styled_chars(
                join_sep(av.subrange(op.old_start(), op.old_start() + op.old_adv()), sep),
                rst,
                rwst,
                hl,
            ),
        ]
    } else if op.is_insert() {
        seq![
            styled_chars(
                join_sep(bv.subrange(op.new_start(), op.new_start() + op.new_adv()), sep),
                ist,
                iwst,
                hl,
            ),
        ]
    } else {
        seq![
            styled_chars(
                join_sep(av.subrange(op.old_start(), op.old_start() + op.old_adv()), sep),
                rst,
                rwst,
                hl,
            ),
            styled_chars(
                join_sep(bv.subrange(op.new_start(), op.new_start() + op.new_adv()), sep),
                ist,
                iwst,
                hl,
            ),
        ]
    }
}

/// The inline rendering entries of a whole edit script.
pub open spec fn inline_entries(
    ops: Seq<SpecOp>,
    av: Seq<Seq<char>>,
    bv: Seq<Seq<char>>,
    sep: Seq<char>,
    ist: Seq<char>,
    iwst: Seq<char>,
    rst: Seq<char>,
    rwst: Seq<char>,
    hl: bool,
) -> Seq<Seq<char>>
    decreases ops.len(),
{
    if ops.len() == 0 {
        Seq::empty()
    } else {
        inline_entry(ops[0], av, bv, sep, ist, iwst, rst, rwst, hl) + inline_entries(
            ops.skip(1),
            av,
            bv,
            sep,
            ist,
            iwst,
            rst,
            rwst,
            hl,
        )
    }
}

/// Container for an inline (character or word level) text diff and its
/// rendering styles.
pub struct InlineChangeset {
    pub old: Vec<String>,
    pub new: Vec<String>,
    pub separator: String,
    pub highlight_whitespace: bool,
    pub insert_style: InlineStyle,
    pub insert_whitespace_style: InlineStyle,
    pub remove_style: InlineStyle,
    pub remove_whitespace_style: InlineStyle,
}

impl InlineChangeset {
    /// A changeset over the given element lists, with the documented
    /// defaults: empty separator, whitespace highlighting on, insertions
    /// green (whitespace white on green), removals struck-through red
    /// (whitespace white on red).
    pub fn new(old: Vec<String>, new: Vec<String>) -> (r: InlineChangeset)
        ensures
            r.old == old,
            r.new == new,
            r.separator@ == Seq::<char>::empty(),
            r.highlight_whitespace == true,
            r.insert_style.sgr@ == "32"@,
            r.insert_whitespace_style.sgr@ == "42;37"@,
            r.remove_style.sgr@ == "9;31"@,
            r.remove_whitespace_style.sgr@ == "41;37"@,
    {
        InlineChangeset {
            old,
            new,
            separator: String::new(),
            highlight_whitespace: true,
            insert_style: InlineStyle { sgr: "32".to_owned() },
            insert_whitespace_style: InlineStyle { sgr: "42;37".to_owned() },
            remove_style: InlineStyle { sgr: "9;31".to_owned() },
            remove_whitespace_style: InlineStyle { sgr: "41;37".to_owned() },
        }
    }

    /// Highlight whitespace in inserted and removed runs?
    pub fn set_highlight_whitespace(self, val: bool) -> (r: Self)
        ensures
            r.highlight_whitespace == val,
            r.old == self.old,
            r.new == self.new,
            r.separator == self.separator,
            r.insert_style == self.insert_style,
            r.insert_whitespace_style == self.insert_whitespace_style,
            r.remove_style == self.remove_style,
            r.remove_whitespace_style == self.remove_whitespace_style,
    {
        InlineChangeset { highlight_whitespace: val, ..self }
    }

    /// Style of inserted text.
    pub fn set_insert_style(self, val: InlineStyle) -> (r: Self)
        ensures
            r.insert_style == val,
            r.old == self.old,
            r.new == self.new,
            r.separator == self.separator,
            r.highlight_whitespace == self.highlight_whitespace,
            r.insert_whitespace_style == self.insert_whitespace_style,
            r.remove_style == self.remove_style,
            r.remove_whitespace_style == self.remove_whitespace_style,
    {
        InlineChangeset { insert_style: val, ..self }
    }

    /// Style of inserted whitespace.
    pub fn set_insert_whitespace_style(self, val: InlineStyle) -> (r: Self)
        ensures
            r.insert_whitespace_style == val,
            r.old == self.old,
            r.new == self.new,
            r.separator == self.separator,
            r.highlight_whitespace == self.highlight_whitespace,
            r.insert_style == self.insert_style,
            r.remove_style == self.remove_style,
            r.remove_whitespace_style == self.remove_whitespace_style,
    {
        InlineChangeset { insert_whitespace_style: val, ..self }
    }

    /// Style of removed text.
    pub fn set_remove_style(self, val: InlineStyle) -> (r: Self)
        ensures
            r.remove_style == val,
            r.old == self.old,
            r.new == self.new,
            r.separator == self.separator,
            r.highlight_whitespace == self.highlight_whitespace,
            r.insert_style == self.insert_style,
            r.insert_whitespace_style == self.insert_whitespace_style,
            r.remove_whitespace_style == self.remove_whitespace_style,
    {
        InlineChangeset { remove_style: val, ..self }
    }

    /// Style of removed whitespace.
    pub fn set_remove_whitespace_style(self, val: InlineStyle) -> (r: Self)
        ensures
            r.remove_whitespace_style == val,
            r.old == self.old,
            r.new == self.new,
            r.separator == self.separator,
            r.highlight_whitespace == self.highlight_whitespace,
            r.insert_style == self.insert_style,
            r.insert_whitespace_style == self.insert_whitespace_style,
            r.remove_style == self.remove_style,
    {
        InlineChangeset { remove_whitespace_style: val, ..self }
    }

    /// Set the output separator.
    pub fn set_separator(self, val: &str) -> (r: Self)
        ensures
            r.separator@ == val@,
            r.old == self.old,
            r.new == self.new,
            r.highlight_whitespace == self.highlight_whitespace,
            r.insert_style == self.insert_style,
            r.insert_whitespace_style == self.insert_whitespace_style,
            r.remove_style == self.remove_style,
            r.remove_whitespace_style == self.remove_whitespace_style,
    {
        InlineChangeset { separator: val.to_owned(), ..self }
    }

    /// The edit script of the two element lists: see `basic::diff`.
    pub fn diff(&self) -> (ops: Vec<DiffOp>)
        ensures
            basic::ops_view(ops@) == basic::diff_spec(self.old@, self.new@),
            basic::ops_chained(
                basic::ops_view(ops@),
                0,
                0,
                self.old@.len() as int,
                self.new@.len() as int,
            ),
            basic::ops_positive(basic::ops_view(ops@)),
            basic::ops_match(basic::ops_view(ops@), self.old@, self.new@),
            basic::ops_coalesced(basic::ops_view(ops@)),
            basic::edit_weight(basic::ops_view(ops@)) == self.old@.len() + self.new@.len() - 2
                * crate::lcs::lcs_len(self.old@, self.new@),
    {
        basic::diff(&self.old, &self.new)
    }

    /// The inline colored rendering: entries per operation joined by the
    /// separator, removed runs in the remove styles and inserted runs in the
    /// insert styles, character by character.
    #[verifier::loop_isolation(false)]
    #[verifier::rlimit(100)]
    pub fn format(&self) -> (r: String)
        ensures
            r@ == join_sep(
                inline_entries(
                    basic::diff_spec(self.old@, self.new@),
                    strs_view(self.old@),
                    strs_view(self.new@),
                    self.separator@,
                    self.insert_style.sgr@,
                    self.insert_whitespace_style.sgr@,
                    self.remove_style.sgr@,
                    self.remove_whitespace_style.sgr@,
                    self.highlight_whitespace,
                ),
                self.separator@,
            ),
    {
        let ops = basic::diff(&self.old, &self.new);
        let m = self.old.len();
        let n = self.new.len();
        let hl = self.highlight_whitespace;
        let ghost opsv = basic::ops_view(ops@);
        let ghost av = strs_view(self.old@);
        let ghost bv = strs_view(self.new@);
        let ghost sep = self.separator@;
        let ghost ist = self.insert_style.sgr@;
        let ghost iwst = self.insert_whitespace_style.sgr@;
        let ghost rst = self.remove_style.sgr@;
        let ghost rwst = self.remove_whitespace_style.sgr@;
        proof {
            basic::lemma_ops_in_bounds(opsv, 0, 0, m as int, n as int);
        }
        let mut entries: Vec<String> = Vec::new();
        let mut k: usize = 0;
        proof {
            assert(strs_view(entries@) =~= Seq::<Seq<char>>::empty());
            assert(opsv.skip(0) =~= opsv);
            assert(Seq::<Seq<char>>::empty() + inline_entries(
                opsv,
                av,
                bv,
                sep,
                ist,
                iwst,
                rst,
                rwst,
                hl,
            ) =~= inline_entries(opsv, av, bv, sep, ist, iwst, rst, rwst, hl));
        }
        while k < ops.len()
            invariant
                k <= ops@.len(),
                inline_entries(opsv, av, bv, sep, ist, iwst, rst, rwst, hl) == strs_view(entries@)
                    + inline_entries(opsv.skip(k as int), av, bv, sep, ist, iwst, rst, rwst, hl),
            decreases ops@.len() - k,
        {
            let ghost entries0 = entries@;
            proof {
                assert(opsv.skip(k as int)[0] == opsv[k as int]);
                assert(opsv.skip(k as int).skip(1) =~= opsv.skip(k as int + 1));
                assert(opsv[k as int] == ops@[k as int]@);
            }
            let op = ops[k];
            proof {
                assert(op@ == opsv[k as int]);
                assert(op@.old_start() + op@.old_adv() <= m as int);
                assert(op@.new_start() + op@.new_adv() <= n as int);
                assert(op@.old_start() >= 0 && op@.new_start() >= 0);
                assert(op@.old_adv() >= 0 && op@.new_adv() >= 0);
            }
            match op {
                DiffOp::Equal { old_start, new_start, len } => {
                    proof {
                        assert(old_start as int + len as int <= m as int);
                        assert(strs_view(self.old@.subrange(
                            old_start as int,
                            old_start as int + len as int,
                        )) =~= av.subrange(old_start as int, old_start as int + len as int));
                    }
                    let s = join_range(&self.old, old_start, old_start + len, self.separator.as_str());
                    entries.push(s);
                },
                DiffOp::Remove { old_start, new_start, len } => {
                    proof {
                        assert(old_start as int + len as int <= m as int);
                        assert(strs_view(self.old@.subrange(
                            old_start as int,
                            old_start as int + len as int,
                        )) =~= av.subrange(old_start as int, old_start as int + len as int));
                    }
                    let s = join_range(&self.old, old_start, old_start + len, self.separator.as_str());
                    entries.push(
                        style_string(
                            s.as_str(),
                            &self.remove_style,
                            &self.remove_whitespace_style,
                            hl,
                        ),
                    );
                },
                DiffOp::Insert { old_start, new_start, len } => {
                    proof {
                        assert(new_start as int + len as int <= n as int);
                        assert(strs_view(self.new@.subrange(
                            new_start as int,
                            new_start as int + len as int,
                        )) =~= bv.subrange(new_start as int, new_start as int + len as int));
                    }
                    let s = join_range(&self.new, new_start, new_start + len, self.separator.as_str());
                    entries.push(
                        style_string(
                            s.as_str(),
                            &self.insert_style,
                            &self.insert_whitespace_style,
                            hl,
                        ),
                    );
                },
                DiffOp::Replace { old_start, old_len, new_start, new_len } => {
                    proof {
                        assert(old_start as int + old_len as int <= m as int);
                        assert(new_start as int + new_len as int <= n as int);
                        assert(strs_view(self.old@.subrange(
                            old_start as int,
                            old_start as int + old_len as int,
                        )) =~= av.subrange(old_start as int, old_start as int + old_len as int));
                        assert(strs_view(self.new@.subrange(
                            new_start as int,
                            new_start as int + new_len as int,
                        )) =~= bv.subrange(new_start as int, new_start as int + new_len as int));
                    }
                    let s1 = join_range(&self.old, old_start, old_start + old_len, self.separator.as_str());
                    entries.push(
                        style_string(
                            s1.as_str(),
                            &self.remove_style,
                            &self.remove_whitespace_style,
                            hl,
                        ),
                    );
                    let s2 = join_range(&self.new, new_start, new_start + new_len, self.separator.as_str());
                    entries.push(
                        style_string(
                            s2.as_str(),
                            &self.insert_style,
                            &self.insert_whitespace_style,
                            hl,
                        ),
                    );
                },
            }
            k = k + 1;
            proof {
                assert(strs_view(entries@) =~= strs_view(entries0) + inline_entry(
                    opsv[k as int - 1],
                    av,
                    bv,
                    sep,
                    ist,
                    iwst,
                    rst,
                    rwst,
                    hl,
                ));
                assert((strs_view(entries0) + inline_entry(
                    opsv[k as int - 1],
                    av,
                    bv,
                    sep,
                    ist,
                    iwst,
                    rst,
                    rwst,
                    hl,
                )) + inline_entries(opsv.skip(k as int), av, bv, sep, ist, iwst, rst, rwst, hl)
                    =~= strs_view(entries0) + (inline_entry(
                    opsv[k as int - 1],
                    av,
                    bv,
                    sep,
                    ist,
                    iwst,
                    rst,
                    rwst,
                    hl,
                ) + inline_entries(opsv.skip(k as int), av, bv, sep, ist, iwst, rst, rwst, hl)));
            }
        }
        proof {
            assert(opsv.skip(opsv.len() as int) =~= Seq::<SpecOp>::empty());
            assert(inline_entries(Seq::<SpecOp>::empty(), av, bv, sep, ist, iwst, rst, rwst, hl)
                =~= Seq::<Seq<char>>::empty());
            assert(strs_view(entries@) + Seq::<Seq<char>>::empty() =~= strs_view(entries@));
        }
        let r = join_range(&entries, 0, entries.len(), self.separator.as_str());
        proof {
            assert(entries@.subrange(0, entries@.len() as int) =~= entries@);
        }
        r
    }
}

/// Character-level diff of two texts.
pub fn diff_chars(old: &str, new: &str) -> (r: InlineChangeset)
    ensures
        strs_view(r.old@) == split_chars_spec(old@),
        strs_view(r.new@) == split_chars_spec(new@),
        r.separator@ == Seq::<char>::empty(),
        r.highlight_whitespace == true,
        r.insert_style.sgr@ == "32"@,
        r.insert_whitespace_style.sgr@ == "42;37"@,
        r.remove_style.sgr@ == "9;31"@,
        r.remove_whitespace_style.sgr@ == "41;37"@,
{
    InlineChangeset::new(split_chars(old), split_chars(new))
}

/// Word-level diff of two texts: words and delimiters as `split_words`
/// yields them.
pub fn diff_words(old: &str, new: &str) -> (r: InlineChangeset)
    ensures
        strs_view(r.old@) == split_words_spec(old@),
        strs_view(r.new@) == split_words_spec(new@),
        r.separator@ == Seq::<char>::empty(),
        r.highlight_whitespace == true,
        r.insert_style.sgr@ == "32"@,
        r.insert_whitespace_style.sgr@ == "42;37"@,
        r.remove_style.sgr@ == "9;31"@,
        r.remove_whitespace_style.sgr@ == "41;37"@,
{
    InlineChangeset::new(split_words(old), split_words(new))
}

} // verus!

verus! {

/// The color a table cell's lines are painted in.
#[derive(Clone, Copy, Debug, PartialEq, Eq, Structural)]
pub enum Hue {
    Plain,
    Green,
    Red,
}

/// A line under the given hue.
pub open spec fn hue_text(h: Hue, s: Seq<char>) -> Seq<char> {
    match h {
        Hue::Plain => s,
        Hue::Green => green_text(s),
        Hue::Red => red_text(s),
    }
}

/// Each tab character replaced by four spaces.
pub open spec fn tab_expand(s: Seq<char>) -> Seq<char>
    decreases s.len(),
{
    if s.len() == 0 {
        Seq::empty()
    } else {
        (if s[0] == '\t' {
            seq![' ', ' ', ' ', ' ']
        } else {
            seq![s[0]]
        }) + tab_expand(s.skip(1))
    }
}

/// Replace each tab of a string by four spaces.
#[verifier::loop_isolation(false)]
fn tab_expand_str(s: &str) -> (r: String)
    ensures
        r@ == tab_expand(s@),
{
    let n = s.unicode_len();
    let mut r = String::new();
    let mut k: usize = 0;
    proof {
        assert(s@.skip(0) =~= s@);
        assert(Seq::<char>::empty() + tab_expand(s@) =~= tab_expand(s@));
    }
    while k < n
        invariant
            k <= n,
            tab_expand(s@) == r@ + tab_expand(s@.skip(k as int)),
        decreases n - k,
    {
        let ghost r0 = r@;
        let c = s.get_char(k);
        proof {
            assert(s@.skip(k as int)[0] == s@[k as int]);
            assert(s@.skip(k as int).skip(1) =~= s@.skip(k as int + 1));
        }
        if c == '\t' {
            r.append("    ");
            proof {
                reveal_strlit("    ");
                assert("    "@ =~= seq![' ', ' ', ' ', ' ']);
            }
        } else {
            let piece = s.substring_char(k, k + 1);
            r.append(piece);
            proof {
                assert(piece@ =~= seq![s@[k as int]]);
            }
        }
        k = k + 1;
        proof {
            assert(tab_expand(s@) =~= r@ + tab_expand(s@.skip(k as int)));
        }
    }
    proof {
        assert(s@.skip(n as int) =~= Seq::<char>::empty());
        assert(r@ + Seq::<char>::empty() =~= r@);
    }
    r
}

/// How many blank lines stand at the front.
pub open spec fn lead_blank(ls: Seq<Seq<char>>) -> int
    decreases ls.len(),
{
    if ls.len() == 0 {
        0
    } else if ls[0].len() == 0 {
        1 + lead_blank(ls.skip(1))
    } else {
        0
    }
}

/// How many blank lines stand at the back.
pub open spec fn trail_blank(ls: Seq<Seq<char>>) -> int
    decreases ls.len(),
{
    if ls.len() == 0 {
        0
    } else if ls.last().len() == 0 {
        1 + trail_blank(ls.drop_last())
    } else {
        0
    }
}

proof fn lemma_lead_blank_char(ls: Seq<Seq<char>>, c: int)
    requires
        0 <= c <= ls.len(),
        forall|i: int| 0 <= i < c ==> (#[trigger] ls[i]).len() == 0,
        c < ls.len() ==> ls[c].len() > 0,
    ensures
        lead_blank(ls) == c,
    decreases ls.len(),
{
    if ls.len() == 0 {
    } else if c == 0 {
    } else {
        assert(ls[0].len() == 0);
        assert forall|i: int| 0 <= i < c - 1 implies (#[trigger] ls.skip(1)[i]).len() == 0 by {
            assert(ls.skip(1)[i] == ls[i + 1]);
        }
        assert(c - 1 < ls.skip(1).len() ==> ls.skip(1)[c - 1].len() > 0);
        lemma_lead_blank_char(ls.skip(1), c - 1);
    }
}

proof fn lemma_trail_blank_char(ls: Seq<Seq<char>>, c: int)
    requires
        0 <= c <= ls.len(),
        forall|i: int| ls.len() - c <= i < ls.len() ==> (#[trigger] ls[i]).len() == 0,
        c < ls.len() ==> ls[ls.len() - c - 1].len() > 0,
    ensures
        trail_blank(ls) == c,
    decreases ls.len(),
{
    if ls.len() == 0 {
    } else if c == 0 {
        assert(ls.last().len() > 0);
    } else {
        assert(ls.last().len() == 0);
        assert forall|i: int|
            ls.drop_last().len() - (c - 1) <= i < ls.drop_last().len() implies (#[trigger] ls
            .drop_last()[i]).len() == 0 by {
            assert(ls.drop_last()[i] == ls[i]);
        }
        if c - 1 < ls.drop_last().len() {
            assert(ls.drop_last()[ls.drop_last().len() - (c - 1) - 1] == ls[ls.len() - c - 1]);
        }
        lemma_trail_blank_char(ls.drop_last(), c - 1);
    }
}

proof fn lemma_lead_blank_le(ls: Seq<Seq<char>>)
    ensures
        0 <= lead_blank(ls) <= ls.len(),
    decreases ls.len(),
{
    if ls.len() == 0 {
    } else if ls[0].len() == 0 {
        lemma_lead_blank_le(ls.skip(1));
    }
}

/// Where the trimmed window of the lines begins.
pub open spec fn trim_start(w: Seq<Seq<char>>, trim: bool) -> int {
    if trim {
        lead_blank(w)
    } else {
        0
    }
}

/// Where the trimmed window of the lines ends.
pub open spec fn trim_stop(w: Seq<Seq<char>>, trim: bool) -> int {
    if !trim {
        w.len() as int
    } else if lead_blank(w) == w.len() {
        lead_blank(w)
    } else {
        w.len() - trail_blank(w)
    }
}

/// The lines of the window under the hue.
pub open spec fn hue_lines(h: Hue, ls: Seq<Seq<char>>) -> Seq<Seq<char>> {
    ls.map_values(|l: Seq<char>| hue_text(h, l))
}

/// What one table cell renders to: the trimmed window of its lines, each
/// painted, joined by newlines, tabs expanded.
pub open spec fn process_spec(w: Seq<Seq<char>>, h: Hue, trim: bool) -> Seq<char> {
    tab_expand(join_sep(hue_lines(h, w.subrange(trim_start(w, trim), trim_stop(w, trim))), nl()))
}

/// Find the trimmed window of `v[from..to]`: blank lines are dropped from
/// the front and, when any line remains, from the back.
#[verifier::loop_isolation(false)]
fn trim_bounds(v: &Vec<String>, from: usize, to: usize) -> (r: (usize, usize))
    requires
        from <= to <= v@.len(),
    ensures
        r.0 as int == from + trim_start(strs_view(v@.subrange(from as int, to as int)), true),
        r.1 as int == from + trim_stop(strs_view(v@.subrange(from as int, to as int)), true),
        from <= r.0 <= r.1 <= to,
{
    let ghost w = strs_view(v@.subrange(from as int, to as int));
    let mut start = from;
    while start < to && v[start].as_str().unicode_len() == 0
        invariant
            from <= start <= to,
            forall|i: int| 0 <= i < start - from ==> (#[trigger] w[i]).len() == 0,
        decreases to - start,
    {
        start = start + 1;
    }
    proof {
        lemma_lead_blank_char(w, start as int - from as int);
    }
    if start == to {
        proof {
            assert(lead_blank(w) == w.len());
        }
        (start, start)
    } else {
        let mut stop = to;
        while stop > start && v[stop - 1].as_str().unicode_len() == 0
            invariant
                start <= stop <= to,
                forall|i: int| stop - from <= i < w.len() ==> (#[trigger] w[i]).len() == 0,
            decreases stop,
        {
            stop = stop - 1;
        }
        proof {
            if stop > start {
                assert(w[stop as int - 1 - from].len() > 0);
            } else {
                assert(w[start as int - from].len() > 0);
            }
            assert(stop > start);
            lemma_trail_blank_char(w, to as int - stop as int);
        }
        (start, stop)
    }
}

/// Render the lines `v[from..to]` as one table cell: trim blank edges when
/// asked, paint every remaining line in the hue, join with newlines and
/// expand tabs. Also returns how many leading lines were trimmed.
#[verifier::loop_isolation(false)]
#[verifier::rlimit(100)]
fn prettytable_process(v: &Vec<String>, from: usize, to: usize, h: Hue, trim: bool) -> (r: (
    String,
    usize,
))
    requires
        from <= to <= v@.len(),
    ensures
        r.0@ == process_spec(strs_view(v@.subrange(from as int, to as int)), h, trim),
        r.1 as int == trim_start(strs_view(v@.subrange(from as int, to as int)), trim),
{
    let ghost w = strs_view(v@.subrange(from as int, to as int));
    let start: usize;
    let stop: usize;
    if trim {
        let bounds = trim_bounds(v, from, to);
        start = bounds.0;
        stop = bounds.1;
    } else {
        start = from;
        stop = to;
    }
    proof {
        assert(start as int - from as int == trim_start(w, trim));
        assert(stop as int - from as int == trim_stop(w, trim));
    }
    let mut parts: Vec<String> = Vec::new();
    let mut idx = start;
    proof {
        assert(strs_view(parts@) =~= hue_lines(
            h,
            w.subrange(trim_start(w, trim), trim_start(w, trim)),
        ));
    }
    while idx < stop
        invariant
            start <= idx <= stop,
            strs_view(parts@) == hue_lines(
                h,
                w.subrange(trim_start(w, trim), idx as int - from as int),
            ),
        decreases stop - idx,
    {
        let ghost parts0 = parts@;
        let line = match h {
            Hue::Plain => v[idx].clone(),
            Hue::Green => paint_green(v[idx].as_str()),
            Hue::Red => paint_red(v[idx].as_str()),
        };
        parts.push(line);
        idx = idx + 1;
        proof {
            assert(w[idx as int - 1 - from as int] == v@[idx as int - 1]@);
            assert(strs_view(parts@) =~= strs_view(parts0).push(hue_text(
                h,
                w[idx as int - 1 - from as int],
            )));
            assert(hue_lines(h, w.subrange(trim_start(w, trim), idx as int - from as int))
                =~= hue_lines(h, w.subrange(trim_start(w, trim), idx as int - 1 - from as int)).push(
            hue_text(h, w[idx as int - 1 - from as int])));
        }
    }
    let joined = join_range(&parts, 0, parts.len(), "\n");
    proof {
        assert(parts@.subrange(0, parts@.len() as int) =~= parts@);
        reveal_strlit("\n");
        assert("\n"@ =~= nl());
        assert(strs_view(parts@) == hue_lines(
            h,
            w.subrange(trim_start(w, trim), trim_stop(w, trim)),
        ));
    }
    let expanded = tab_expand_str(joined.as_str());
    (expanded, start - from)
}

} // verus!

verus! {

proof fn lemma_lcs_strs(a: Seq<String>, b: Seq<String>)
    ensures
        crate::lcs::lcs_len(a, b) == crate::lcs::lcs_len(strs_view(a), strs_view(b)),
    decreases a.len() + b.len(),
{
    let av = strs_view(a);
    let bv = strs_view(b);
    if a.len() == 0 || b.len() == 0 {
    } else {
        assert(av.last() == a.last()@);
        assert(bv.last() == b.last()@);
        assert(strs_view(a.drop_last()) =~= av.drop_last());
        assert(strs_view(b.drop_last()) =~= bv.drop_last());
        lemma_lcs_strs(a.drop_last(), b.drop_last());
        lemma_lcs_strs(a.drop_last(), b);
        lemma_lcs_strs(a, b.drop_last());
    }
}

proof fn lemma_path_strs(a: Seq<String>, b: Seq<String>, i: int, j: int)
    requires
        0 <= i <= a.len(),
        0 <= j <= b.len(),
    ensures
        basic::backtrace_path(a, b, i, j) == basic::backtrace_path(strs_view(a), strs_view(b), i, j),
    decreases i + j,
{
    let av = strs_view(a);
    let bv = strs_view(b);
    if i <= 0 && j <= 0 {
    } else {
        if i > 0 {
            assert(strs_view(a.take(i)) =~= av.take(i));
            assert(strs_view(a.take(i - 1)) =~= av.take(i - 1));
        }
        if j > 0 {
            assert(strs_view(b.take(j)) =~= bv.take(j));
            assert(strs_view(b.take(j - 1)) =~= bv.take(j - 1));
        }
        if i > 0 && j > 0 {
            assert(av[i - 1] == a[i - 1]@);
            assert(bv[j - 1] == b[j - 1]@);
            lemma_lcs_strs(a.take(i - 1), b.take(j));
            lemma_lcs_strs(a.take(i), b.take(j - 1));
        }
        if i > 0 && j > 0 && a[i - 1].eqv(&b[j - 1]) {
            lemma_path_strs(a, b, i - 1, j - 1);
        } else if i > 0 && (j <= 0 || crate::lcs::lcs_len(a.take(i - 1), b.take(j))
            >= crate::lcs::lcs_len(a.take(i), b.take(j - 1))) {
            lemma_path_strs(a, b, i - 1, j);
        } else {
            lemma_path_strs(a, b, i, j - 1);
        }
    }
}

/// The edit script of string elements depends on their views alone.
pub proof fn lemma_diff_spec_strs(a: Seq<String>, b: Seq<String>)
    ensures
        basic::diff_spec(a, b) == basic::diff_spec(strs_view(a), strs_view(b)),
{
    lemma_path_strs(a, b, a.len() as int, b.len() as int);
    assert(strs_view(a).len() == a.len());
    assert(strs_view(b).len() == b.len());
}

/// A string painted segment by segment: split at every newline, each
/// segment under the hue, joined back with newlines.
pub open spec fn multi_colored(h: Hue, s: Seq<char>) -> Seq<char> {
    join_sep(hue_lines(h, split_nl_rec(s, Seq::empty())), nl())
}

/// What the word-level re-diff of a replacement renders, walking its edit
/// script: equal tokens go to both cells unstyled, removed tokens red into
/// the left cell, inserted tokens green into the right cell.
pub open spec fn replace_sides(ops: Seq<SpecOp>, av: Seq<Seq<char>>, bv: Seq<Seq<char>>) -> (
    Seq<char>,
    Seq<char>,
)
    decreases ops.len(),
{
    if ops.len() == 0 {
        (Seq::empty(), Seq::empty())
    } else {
        let rest = replace_sides(ops.skip(1), av, bv);
        let op = ops[0];
        let oldjoin = join_sep(
            av.subrange(op.old_start(), op.old_start() + op.old_adv()),
            Seq::empty(),
        );
        let newjoin = join_sep(
            bv.subrange(op.new_start(), op.new_start() + op.new_adv()),
            Seq::empty(),
        );
        if op.is_equal() {
            (oldjoin + rest.0, oldjoin + rest.1)
        } else if op.is_remove() {
            (multi_colored(Hue::Red, oldjoin) + rest.0, rest.1)
        } else if op.is_insert() {
            (rest.0, multi_colored(Hue::Green, newjoin) + rest.1)
        } else {
            (
                multi_colored(Hue::Red, oldjoin) + rest.0,
                multi_colored(Hue::Green, newjoin) + rest.1,
            )
        }
    }
}

/// The two cells of a rendered replacement: the trimmed cell texts split
/// into words, re-diffed, and rendered by `replace_sides`.
pub open spec fn replace_render(oldcell: Seq<char>, newcell: Seq<char>) -> (Seq<char>, Seq<char>) {
    replace_sides(
        basic::diff_spec(split_words_spec(oldcell), split_words_spec(newcell)),
        split_words_spec(oldcell),
        split_words_spec(newcell),
    )
}

/// A string of whitespace alone (or empty).
pub open spec fn all_white(s: Seq<char>) -> bool {
    forall|i: int| 0 <= i < s.len() ==> is_white(#[trigger] s[i])
}

/// Whether the string is blank: empty or whitespace alone.
#[verifier::loop_isolation(false)]
fn is_blank(s: &str) -> (r: bool)
    ensures
        r == all_white(s@),
{
    let n = s.unicode_len();
    let mut k: usize = 0;
    while k < n
        invariant
            k <= n,
            forall|i: int| 0 <= i < k ==> is_white(#[trigger] s@[i]),
        decreases n - k,
    {
        if !char_is_whitespace(s.get_char(k)) {
            return false;
        }
        k = k + 1;
    }
    true
}

/// The plain newline split of `cur + s`: one segment between every two
/// newlines, empty segments and a final segment kept.
pub open spec fn split_nl_rec(s: Seq<char>, cur: Seq<char>) -> Seq<Seq<char>>
    decreases s.len(),
{
    if s.len() == 0 {
        seq![cur]
    } else if s[0] == '\n' {
        seq![cur] + split_nl_rec(s.skip(1), Seq::empty())
    } else {
        split_nl_rec(s.skip(1), cur.push(s[0]))
    }
}

/// Split on every newline, keeping empty segments, as the nested rendering
/// of a replacement needs it.
#[verifier::loop_isolation(false)]
fn split_plain(s: &str) -> (r: Vec<String>)
    ensures
        strs_view(r@) == split_nl_rec(s@, Seq::empty()),
{
    let n = s.unicode_len();
    let mut out: Vec<String> = Vec::new();
    let mut cur = String::new();
    let mut k: usize = 0;
    proof {
        assert(s@.skip(0) =~= s@);
        assert(strs_view(out@) =~= Seq::<Seq<char>>::empty());
        assert(Seq::<Seq<char>>::empty() + split_nl_rec(s@, Seq::empty()) =~= split_nl_rec(
            s@,
            Seq::empty(),
        ));
    }
    while k < n
        invariant
            k <= n,
            split_nl_rec(s@, Seq::empty()) == strs_view(out@) + split_nl_rec(
                s@.skip(k as int),
                cur@,
            ),
        decreases n - k,
    {
        let ghost out0 = out@;
        let ghost cur0 = cur@;
        let c = s.get_char(k);
        proof {
            assert(s@.skip(k as int)[0] == s@[k as int]);
            assert(s@.skip(k as int).skip(1) =~= s@.skip(k as int + 1));
        }
        if c == '\n' {
            out.push(cur);
            cur = String::new();
            proof {
                assert(strs_view(out@) =~= strs_view(out0).push(cur0));
                assert(strs_view(out0).push(cur0) =~= strs_view(out0) + seq![cur0]);
                assert(strs_view(out0) + (seq![cur0] + split_nl_rec(
                    s@.skip(k as int + 1),
                    Seq::empty(),
                )) =~= (strs_view(out0) + seq![cur0]) + split_nl_rec(
                    s@.skip(k as int + 1),
                    Seq::empty(),
                ));
            }
        } else {
            let piece = s.substring_char(k, k + 1);
            cur.append(piece);
            proof {
                assert(piece@ =~= seq![s@[k as int]]);
                assert(cur@ =~= cur0.push(s@[k as int]));
            }
        }
        k = k + 1;
    }
    let ghost out0 = out@;
    let ghost cur0 = cur@;
    out.push(cur);
    proof {
        assert(s@.skip(n as int) =~= Seq::<char>::empty());
        assert(split_nl_rec(Seq::<char>::empty(), cur0) =~= seq![cur0]);
        assert(strs_view(out@) =~= strs_view(out0).push(cur0));
        assert(strs_view(out0) + seq![cur0] =~= strs_view(out0).push(cur0));
    }
    out
}

/// Paint every newline-separated segment of the string in the hue and join
/// them back with newlines.
#[verifier::loop_isolation(false)]
fn color_multilines(h: Hue, s: &str) -> (r: String)
    ensures
        r@ == multi_colored(h, s@),
{
    let segs = split_plain(s);
    let ghost segsv = strs_view(segs@);
    let mut painted: Vec<String> = Vec::new();
    let mut k: usize = 0;
    proof {
        assert(strs_view(painted@) =~= hue_lines(h, segsv.subrange(0, 0)));
    }
    while k < segs.len()
        invariant
            k <= segs@.len(),
            strs_view(painted@) == hue_lines(h, segsv.subrange(0, k as int)),
        decreases segs@.len() - k,
    {
        let ghost painted0 = painted@;
        let line = match h {
            Hue::Plain => segs[k].clone(),
            Hue::Green => paint_green(segs[k].as_str()),
            Hue::Red => paint_red(segs[k].as_str()),
        };
        painted.push(line);
        k = k + 1;
        proof {
            assert(segsv[k as int - 1] == segs@[k as int - 1]@);
            assert(strs_view(painted@) =~= strs_view(painted0).push(hue_text(
                h,
                segsv[k as int - 1],
            )));
            assert(hue_lines(h, segsv.subrange(0, k as int)) =~= hue_lines(
                h,
                segsv.subrange(0, k as int - 1),
            ).push(hue_text(h, segsv[k as int - 1])));
        }
    }
    let r = join_range(&painted, 0, painted.len(), "\n");
    proof {
        assert(painted@.subrange(0, painted@.len() as int) =~= painted@);
        reveal_strlit("\n");
        assert("\n"@ =~= nl());
        assert(segsv.subrange(0, segsv.len() as int) =~= segsv);
    }
    r
}

/// One row of the side-by-side table: the line numbers at which the two
/// cells begin, and the rendered cells.
pub struct TableRow {
    pub old_line: usize,
    pub left: String,
    pub new_line: usize,
    pub right: String,
}

/// The mathematical form of a table row.
pub struct RowSpec {
    pub old_line: int,
    pub left: Seq<char>,
    pub new_line: int,
    pub right: Seq<char>,
}

/// The views of a list of table rows.
pub open spec fn rows_view(rows: Seq<TableRow>) -> Seq<RowSpec> {
    rows.map_values(
        |r: TableRow|
            RowSpec {
                old_line: r.old_line as int,
                left: r.left@,
                new_line: r.new_line as int,
                right: r.right@,
            },
    )
}

/// The row one operation yields, before filtering: the rendered trimmed
/// window on each side it touches, and line numbers moved past the trimmed
/// blank lines.
pub open spec fn op_row(
    op: SpecOp,
    av: Seq<Seq<char>>,
    bv: Seq<Seq<char>>,
    trim: bool,
    ol: int,
    nl_line: int,
) -> RowSpec {
    let wo = av.subrange(op.old_start(), op.old_start() + op.old_adv());
    let wn = bv.subrange(op.new_start(), op.new_start() + op.new_adv());
    if op.is_equal() {
        RowSpec {
            old_line: ol + trim_start(wo, trim),
            left: process_spec(wo, Hue::Plain, trim),
            new_line: nl_line + trim_start(wo, trim),
            right: process_spec(wo, Hue::Plain, trim),
        }
    } else if op.is_remove() {
        RowSpec {
            old_line: ol + trim_start(wo, trim),
            left: process_spec(wo, Hue::Red, trim),
            new_line: nl_line,
            right: Seq::empty(),
        }
    } else if op.is_insert() {
        RowSpec {
            old_line: ol,
            left: Seq::empty(),
            new_line: nl_line + trim_start(wn, trim),
            right: process_spec(wn, Hue::Green, trim),
        }
    } else {
        RowSpec {
            old_line: ol + trim_start(wo, trim),
            left: replace_render(
                process_spec(wo, Hue::Plain, trim),
                process_spec(wn, Hue::Plain, trim),
            ).0,
            new_line: nl_line + trim_start(wn, trim),
            right: replace_render(
                process_spec(wo, Hue::Plain, trim),
                process_spec(wn, Hue::Plain, trim),
            ).1,
        }
    }
}

/// Whether a rendered row survives: equal rows drop under `diff_only`, and
/// rows blank on both sides drop under `trim`.
pub open spec fn row_kept(op: SpecOp, row: RowSpec, diff_only: bool, trim: bool) -> bool {
    (op.is_equal() ==> !diff_only) && (trim ==> !(all_white(row.left) && all_white(row.right)))
}

/// The table rows of a whole edit script, walking it with the two one-based
/// line counters.
pub open spec fn table_rows_spec(
    ops: Seq<SpecOp>,
    av: Seq<Seq<char>>,
    bv: Seq<Seq<char>>,
    diff_only: bool,
    trim: bool,
    ol: int,
    nl_line: int,
) -> Seq<RowSpec>
    decreases ops.len(),
{
    if ops.len() == 0 {
        Seq::empty()
    } else {
        let row = op_row(ops[0], av, bv, trim, ol, nl_line);
        let rest = table_rows_spec(
            ops.skip(1),
            av,
            bv,
            diff_only,
            trim,
            ol + ops[0].old_adv(),
            nl_line + ops[0].new_adv(),
        );
        if row_kept(ops[0], row, diff_only, trim) {
            seq![row] + rest
        } else {
            rest
        }
    }
}

impl LineChangeset {
    /// Render a replacement pair for the table: both sides trimmed, then
    /// word-level re-diffed against each other so that only the changed
    /// words are painted, removals red on the left and insertions green on
    /// the right. Returns the two cells and how many leading lines each
    /// side's trimming dropped.
    #[verifier::loop_isolation(false)]
    #[verifier::rlimit(100)]
    #[verifier::spinoff_prover]
    fn prettytable_process_replace(&self, ofrom: usize, oto: usize, nfrom: usize, nto: usize) -> (r: (
        (String, String),
        (usize, usize),
    ))
        requires
            ofrom <= oto <= self.old@.len(),
            nfrom <= nto <= self.new@.len(),
        ensures
            r.0.0@ == replace_render(
                process_spec(
                    strs_view(self.old@.subrange(ofrom as int, oto as int)),
                    Hue::Plain,
                    self.trim_new_lines,
                ),
                process_spec(
                    strs_view(self.new@.subrange(nfrom as int, nto as int)),
                    Hue::Plain,
                    self.trim_new_lines,
                ),
            ).0,
            r.0.1@ == replace_render(
                process_spec(
                    strs_view(self.old@.subrange(ofrom as int, oto as int)),
                    Hue::Plain,
                    self.trim_new_lines,
                ),
                process_spec(
                    strs_view(self.new@.subrange(nfrom as int, nto as int)),
                    Hue::Plain,
                    self.trim_new_lines,
                ),
            ).1,
            r.1.0 as int == trim_start(
                strs_view(self.old@.subrange(ofrom as int, oto as int)),
                self.trim_new_lines,
            ),
            r.1.1 as int == trim_start(
                strs_view(self.new@.subrange(nfrom as int, nto as int)),
                self.trim_new_lines,
            ),
    {
        let (old_s, old_off) = prettytable_process(&self.old, ofrom, oto, Hue::Plain, self.trim_new_lines);
        let (new_s, new_off) = prettytable_process(&self.new, nfrom, nto, Hue::Plain, self.trim_new_lines);
        let old_tokens = split_words(old_s.as_str());
        let new_tokens = split_words(new_s.as_str());
        let otn = old_tokens.len();
        let ntn = new_tokens.len();
        let ops = basic::diff(&old_tokens, &new_tokens);
        let ghost av = split_words_spec(old_s@);
        let ghost bv = split_words_spec(new_s@);
        let ghost opsv = basic::ops_view(ops@);
        let mut old_out = String::new();
        let mut new_out = String::new();
        let mut k: usize = 0;
        proof {
            basic::lemma_ops_in_bounds(opsv, 0, 0, old_tokens@.len() as int, new_tokens@.len() as int);
            lemma_diff_spec_strs(old_tokens@, new_tokens@);
            assert(strs_view(old_tokens@) == av);
            assert(strs_view(new_tokens@) == bv);
            assert(opsv == basic::diff_spec(av, bv));
            assert(opsv.skip(0) =~= opsv);
            assert(Seq::<char>::empty() + replace_sides(opsv, av, bv).0 =~= replace_sides(
                opsv,
                av,
                bv,
            ).0);
            assert(Seq::<char>::empty() + replace_sides(opsv, av, bv).1 =~= replace_sides(
                opsv,
                av,
                bv,
            ).1);
            reveal_strlit("");
            assert(""@ =~= Seq::<char>::empty());
        }
        while k < ops.len()
            invariant
                k <= ops@.len(),
                replace_sides(opsv, av, bv).0 == old_out@ + replace_sides(
                    opsv.skip(k as int),
                    av,
                    bv,
                ).0,
                replace_sides(opsv, av, bv).1 == new_out@ + replace_sides(
                    opsv.skip(k as int),
                    av,
                    bv,
                ).1,
            decreases ops@.len() - k,
        {
            let ghost old0 = old_out@;
            let ghost new0 = new_out@;
            proof {
                assert(opsv.skip(k as int)[0] == opsv[k as int]);
                assert(opsv.skip(k as int).skip(1) =~= opsv.skip(k as int + 1));
                assert(opsv[k as int] == ops@[k as int]@);
            }
            let op = ops[k];
            proof {
                assert(op@ == opsv[k as int]);
                assert(op@.old_start() + op@.old_adv() <= old_tokens@.len() as int);
                assert(op@.new_start() + op@.new_adv() <= new_tokens@.len() as int);
                assert(op@.old_start() >= 0 && op@.new_start() >= 0);
            }
            let ghost oldjoin = join_sep(
                av.subrange(op@.old_start(), op@.old_start() + op@.old_adv()),
                Seq::<char>::empty(),
            );
            let ghost newjoin = join_sep(
                bv.subrange(op@.new_start(), op@.new_start() + op@.new_adv()),
                Seq::<char>::empty(),
            );
            match op {
                DiffOp::Equal { old_start, new_start, len } => {
                    proof {
                        assert(old_start as int + len as int <= otn as int);
                        assert(strs_view(old_tokens@.subrange(
                            old_start as int,
                            old_start as int + len as int,
                        )) =~= av.subrange(old_start as int, old_start as int + len as int));
                    }
                    let joined = join_range(&old_tokens, old_start, old_start + len, "");
                    old_out.append(joined.as_str());
                    new_out.append(joined.as_str());
                    proof {
                        assert(joined@ == oldjoin);
                        assert(old_out@ == old0 + oldjoin);
                        assert(new_out@ == new0 + oldjoin);
                    }
                },
                DiffOp::Remove { old_start, new_start, len } => {
                    proof {
                        assert(old_start as int + len as int <= otn as int);
                        assert(strs_view(old_tokens@.subrange(
                            old_start as int,
                            old_start as int + len as int,
                        )) =~= av.subrange(old_start as int, old_start as int + len as int));
                    }
                    let joined = join_range(&old_tokens, old_start, old_start + len, "");
                    let colored = color_multilines(Hue::Red, joined.as_str());
                    old_out.append(colored.as_str());
                    proof {
                        assert(joined@ == oldjoin);
                        assert(old_out@ == old0 + multi_colored(Hue::Red, oldjoin));
                    }
                },
                DiffOp::Insert { old_start, new_start, len } => {
                    proof {
                        assert(new_start as int + len as int <= ntn as int);
                        assert(strs_view(new_tokens@.subrange(
                            new_start as int,
                            new_start as int + len as int,
                        )) =~= bv.subrange(new_start as int, new_start as int + len as int));
                    }
                    let joined = join_range(&new_tokens, new_start, new_start + len, "");
                    let colored = color_multilines(Hue::Green, joined.as_str());
                    new_out.append(colored.as_str());
                    proof {
                        assert(joined@ == newjoin);
                        assert(new_out@ == new0 + multi_colored(Hue::Green, newjoin));
                    }
                },
                DiffOp::Replace { old_start, old_len, new_start, new_len } => {
                    proof {
                        assert(old_start as int + old_len as int <= otn as int);
                        assert(new_start as int + new_len as int <= ntn as int);
                        assert(strs_view(old_tokens@.subrange(
                            old_start as int,
                            old_start as int + old_len as int,
                        )) =~= av.subrange(old_start as int, old_start as int + old_len as int));
                        assert(strs_view(new_tokens@.subrange(
                            new_start as int,
                            new_start as int + new_len as int,
                        )) =~= bv.subrange(new_start as int, new_start as int + new_len as int));
                    }
                    let joined_old = join_range(&old_tokens, old_start, old_start + old_len, "");
                    let colored_old = color_multilines(Hue::Red, joined_old.as_str());
                    old_out.append(colored_old.as_str());
                    let joined_new = join_range(&new_tokens, new_start, new_start + new_len, "");
                    let colored_new = color_multilines(Hue::Green, joined_new.as_str());
                    new_out.append(colored_new.as_str());
                    proof {
                        assert(joined_old@ == oldjoin);
                        assert(joined_new@ == newjoin);
                        assert(old_out@ == old0 + multi_colored(Hue::Red, oldjoin));
                        assert(new_out@ == new0 + multi_colored(Hue::Green, newjoin));
                    }
                },
            }
            k = k + 1;
            proof {
                let rest = replace_sides(opsv.skip(k as int), av, bv);
                let this_old = old_out@.subrange(old0.len() as int, old_out@.len() as int);
                assert(old_out@ =~= old0 + this_old);
                let this_new = new_out@.subrange(new0.len() as int, new_out@.len() as int);
                assert(new_out@ =~= new0 + this_new);
                assert((old0 + this_old) + rest.0 =~= old0 + (this_old + rest.0));
                assert((new0 + this_new) + rest.1 =~= new0 + (this_new + rest.1));
            }
        }
        proof {
            assert(opsv.skip(opsv.len() as int) =~= Seq::<SpecOp>::empty());
            assert(old_out@ + Seq::<char>::empty() =~= old_out@);
            assert(new_out@ + Seq::<char>::empty() =~= new_out@);
        }
        ((old_out, new_out), (old_off, new_off))
    }

    /// The rows of the side-by-side table, pinned row by row: one row per
    /// operation of the edit script, cells rendered by `op_row` with
    /// one-based line numbers, equal rows left out under `diff_only`, and
    /// rows blank on both sides left out under `trim_new_lines`.
    #[verifier::loop_isolation(false)]
    #[verifier::rlimit(100)]
    #[verifier::spinoff_prover]
    pub fn prettytable_rows(&self) -> (rows: Vec<TableRow>)
        requires
            self.old@.len() + 1 <= usize::MAX,
            self.new@.len() + 1 <= usize::MAX,
        ensures
            rows_view(rows@) == table_rows_spec(
                basic::diff_spec(self.old@, self.new@),
                strs_view(self.old@),
                strs_view(self.new@),
                self.diff_only,
                self.trim_new_lines,
                1,
                1,
            ),
            self.trim_new_lines ==> forall|k: int|
                0 <= k < rows@.len() ==> !(all_white((#[trigger] rows@[k]).left@) && all_white(
                    rows@[k].right@,
                )),
    {
        let ops = basic::diff(&self.old, &self.new);
        let m = self.old.len();
        let n = self.new.len();
        let ghost opsv = basic::ops_view(ops@);
        let ghost av = strs_view(self.old@);
        let ghost bv = strs_view(self.new@);
        let ghost d = self.diff_only;
        let ghost t = self.trim_new_lines;
        proof {
            basic::lemma_ops_in_bounds(opsv, 0, 0, m as int, n as int);
            assert(opsv.skip(0) =~= opsv);
            assert(rows_view(Seq::<TableRow>::empty()) =~= Seq::<RowSpec>::empty());
            assert(Seq::<RowSpec>::empty() + table_rows_spec(opsv, av, bv, d, t, 1, 1)
                =~= table_rows_spec(opsv, av, bv, d, t, 1, 1));
        }
        let mut rows: Vec<TableRow> = Vec::new();
        let mut old_lines: usize = 1;
        let mut new_lines: usize = 1;
        let mut k: usize = 0;
        while k < ops.len()
            invariant
                k <= ops@.len(),
                1 <= old_lines,
                1 <= new_lines,
                basic::ops_chained(
                    opsv.skip(k as int),
                    old_lines as int - 1,
                    new_lines as int - 1,
                    m as int,
                    n as int,
                ),
                table_rows_spec(opsv, av, bv, d, t, 1, 1) == rows_view(rows@) + table_rows_spec(
                    opsv.skip(k as int),
                    av,
                    bv,
                    d,
                    t,
                    old_lines as int,
                    new_lines as int,
                ),
                t ==> forall|x: int|
                    0 <= x < rows@.len() ==> !(all_white((#[trigger] rows@[x]).left@) && all_white(
                        rows@[x].right@,
                    )),
            decreases ops@.len() - k,
        {
            let ghost rows0 = rows@;
            proof {
                assert(opsv.skip(k as int)[0] == opsv[k as int]);
                assert(opsv.skip(k as int).skip(1) =~= opsv.skip(k as int + 1));
                assert(opsv[k as int] == ops@[k as int]@);
            }
            let op = ops[k];
            proof {
                assert(op@ == opsv[k as int]);
                assert(op@.old_start() == old_lines as int - 1);
                assert(op@.new_start() == new_lines as int - 1);
                assert(op@.old_start() + op@.old_adv() <= m as int);
                assert(op@.new_start() + op@.new_adv() <= n as int);
            }
            let ghost srow = op_row(op@, av, bv, t, old_lines as int, new_lines as int);
            let ghost wo = av.subrange(op@.old_start(), op@.old_start() + op@.old_adv());
            let ghost wn = bv.subrange(op@.new_start(), op@.new_start() + op@.new_adv());
            match op {
                DiffOp::Equal { old_start, new_start, len } => {
                    proof {
                        assert(old_start as int + len as int <= m as int);
                        assert(strs_view(self.old@.subrange(
                            old_start as int,
                            old_start as int + len as int,
                        )) =~= wo);
                    }
                    let (cell, off) = prettytable_process(
                        &self.old,
                        old_start,
                        old_start + len,
                        Hue::Plain,
                        self.trim_new_lines,
                    );
                    proof {
                        lemma_lead_blank_le(wo);
                        assert(off as int <= len as int);
                        assert(old_lines as int + off as int <= m as int + 1);
                    }
                    if !self.diff_only {
                        let keep = if self.trim_new_lines {
                            !is_blank(cell.as_str())
                        } else {
                            true
                        };
                        if keep {
                            let right = cell.clone();
                            rows.push(
                                TableRow {
                                    old_line: old_lines + off,
                                    left: cell,
                                    new_line: new_lines + off,
                                    right,
                                },
                            );
                        }
                    }
                    old_lines = old_lines + len;
                    new_lines = new_lines + len;
                },
                DiffOp::Remove { old_start, new_start, len } => {
                    proof {
                        assert(old_start as int + len as int <= m as int);
                        assert(strs_view(self.old@.subrange(
                            old_start as int,
                            old_start as int + len as int,
                        )) =~= wo);
                    }
                    let (cell, off) = prettytable_process(
                        &self.old,
                        old_start,
                        old_start + len,
                        Hue::Red,
                        self.trim_new_lines,
                    );
                    proof {
                        lemma_lead_blank_le(wo);
                        assert(old_lines as int + off as int <= m as int + 1);
                    }
                    let keep = if self.trim_new_lines {
                        !is_blank(cell.as_str())
                    } else {
                        true
                    };
                    if keep {
                        rows.push(
                            TableRow {
                                old_line: old_lines + off,
                                left: cell,
                                new_line: new_lines,
                                right: String::new(),
                            },
                        );
                    }
                    old_lines = old_lines + len;
                },
                DiffOp::Insert { old_start, new_start, len } => {
                    proof {
                        assert(new_start as int + len as int <= n as int);
                        assert(strs_view(self.new@.subrange(
                            new_start as int,
                            new_start as int + len as int,
                        )) =~= wn);
                    }
                    let (cell, off) = prettytable_process(
                        &self.new,
                        new_start,
                        new_start + len,
                        Hue::Green,
                        self.trim_new_lines,
                    );
                    proof {
                        lemma_lead_blank_le(wn);
                        assert(new_lines as int + off as int <= n as int + 1);
                    }
                    let keep = if self.trim_new_lines {
                        !is_blank(cell.as_str())
                    } else {
                        true
                    };
                    if keep {
                        rows.push(
                            TableRow {
                                old_line: old_lines,
                                left: String::new(),
                                new_line: new_lines + off,
                                right: cell,
                            },
                        );
                    }
                    new_lines = new_lines + len;
                },
                DiffOp::Replace { old_start, old_len, new_start, new_len } => {
                    proof {
                        assert(old_start as int + old_len as int <= m as int);
                        assert(new_start as int + new_len as int <= n as int);
                        assert(strs_view(self.old@.subrange(
                            old_start as int,
                            old_start as int + old_len as int,
                        )) =~= wo);
                        assert(strs_view(self.new@.subrange(
                            new_start as int,
                            new_start as int + new_len as int,
                        )) =~= wn);
                    }
                    let (cells, offs) = self.prettytable_process_replace(
                        old_start,
                        old_start + old_len,
                        new_start,
                        new_start + new_len,
                    );
                    proof {
                        lemma_lead_blank_le(wo);
                        lemma_lead_blank_le(wn);
                        assert(old_lines as int + offs.0 as int <= m as int + 1);
                        assert(new_lines as int + offs.1 as int <= n as int + 1);
                    }
                    let keep = if self.trim_new_lines {
                        !(is_blank(cells.0.as_str()) && is_blank(cells.1.as_str()))
                    } else {
                        true
                    };
                    if keep {
                        rows.push(
                            TableRow {
                                old_line: old_lines + offs.0,
                                left: cells.0,
                                new_line: new_lines + offs.1,
                                right: cells.1,
                            },
                        );
                    }
                    old_lines = old_lines + old_len;
                    new_lines = new_lines + new_len;
                },
            }
            k = k + 1;
            proof {
                if rows@.len() > rows0.len() {
                    assert(rows_view(rows@) =~= rows_view(rows0).push(srow));
                    assert(rows_view(rows0).push(srow) =~= rows_view(rows0) + seq![srow]);
                    assert((rows_view(rows0) + seq![srow]) + table_rows_spec(
                        opsv.skip(k as int),
                        av,
                        bv,
                        d,
                        t,
                        old_lines as int,
                        new_lines as int,
                    ) =~= rows_view(rows0) + (seq![srow] + table_rows_spec(
                        opsv.skip(k as int),
                        av,
                        bv,
                        d,
                        t,
                        old_lines as int,
                        new_lines as int,
                    )));
                } else {
                    assert(rows@ == rows0);
                }
            }
        }
        proof {
            assert(opsv.skip(opsv.len() as int) =~= Seq::<SpecOp>::empty());
            assert(table_rows_spec(
                Seq::<SpecOp>::empty(),
                av,
                bv,
                d,
                t,
                old_lines as int,
                new_lines as int,
            ) =~= Seq::<RowSpec>::empty());
            assert(rows_view(rows@) + Seq::<RowSpec>::empty() =~= rows_view(rows@));
        }
        rows
    }
}

} // verus!
