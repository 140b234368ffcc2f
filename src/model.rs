//! The text form of a model: the splitting pattern on the first line, then
//! one merge per line as two decimal operand IDs, in the order learned; and
//! the human-readable listing of the vocabulary.
use vstd::prelude::*;

use crate::tokenizers::basic::{merges_wf, TableError, Tokenizer};
use crate::util::{chars_of, push_chars, render_spec, render_token_chars, string_from_chars};

verus! {

/// Unicode's White_Space property, which `char::is_whitespace` follows.
pub open spec fn is_ws(c: char) -> bool {
    let v = c as u32;
    (0x09 <= v && v <= 0x0d) || v == 0x20 || v == 0x85 || v == 0xa0 || v == 0x1680 || (0x2000 <= v
        && v <= 0x200a) || v == 0x2028 || v == 0x2029 || v == 0x202f || v == 0x205f || v == 0x3000
}

/// The ASCII digit of `d < 10`.
pub open spec fn digit_char(d: nat) -> char {
    if d == 0 {
        '0'
    } else if d == 1 {
        '1'
    } else if d == 2 {
        '2'
    } else if d == 3 {
        '3'
    } else if d == 4 {
        '4'
    } else if d == 5 {
        '5'
    } else if d == 6 {
        '6'
    } else if d == 7 {
        '7'
    } else if d == 8 {
        '8'
    } else {
        '9'
    }
}

/// The decimal digits of `n`, without leading zeros.
pub open spec fn decimal(n: nat) -> Seq<char>
    decreases n,
{
    if n < 10 {
        seq![digit_char(n)]
    } else {
        decimal(n / 10).push(digit_char(n % 10))
    }
}

/// The line of one merge: its operand IDs separated by a space.
pub open spec fn merge_line(p: (u32, u32)) -> Seq<char> {
    decimal(p.0 as nat) + seq![' '] + decimal(p.1 as nat)
}

/// The lines of all merges, each ended by a newline.
pub open spec fn merge_lines(m: Seq<(u32, u32)>) -> Seq<char>
    decreases m.len(),
{
    if m.len() == 0 {
        Seq::empty()
    } else {
        merge_lines(m.drop_last()) + merge_line(m.last()) + seq!['\n']
    }
}

/// The model text of a pattern and a merge table.
pub open spec fn model_spec(pattern: Seq<char>, m: Seq<(u32, u32)>) -> Seq<char> {
    pattern + seq!['\n'] + merge_lines(m)
}

/// The pieces of `s` between newlines; one more than there are newlines.
pub open spec fn raw_split(s: Seq<char>) -> Seq<Seq<char>>
    decreases s.len(),
{
    if s.len() == 0 {
        seq![Seq::empty()]
    } else {
        let r = raw_split(s.drop_last());
        if s.last() == '\n' {
            r.push(Seq::empty())
        } else {
            r.drop_last().push(r.last().push(s.last()))
        }
    }
}

/// The lines of `s`: the pieces between newlines, without the empty piece
/// that a final newline leaves.
pub open spec fn lines_of(s: Seq<char>) -> Seq<Seq<char>> {
    let r = raw_split(s);
    if r.last().len() == 0 {
        r.drop_last()
    } else {
        r
    }
}

/// The maximal runs of non-whitespace characters of `s`.
pub open spec fn fields(s: Seq<char>) -> Seq<Seq<char>>
    decreases s.len(),
{
    if s.len() == 0 {
        Seq::empty()
    } else {
        let f = fields(s.drop_last());
        let c = s.last();
        if is_ws(c) {
            f
        } else if s.len() >= 2 && !is_ws(s[s.len() - 2]) {
            f.drop_last().push(f.last().push(c))
        } else {
            f.push(seq![c])
        }
    }
}

/// `s` consists of ASCII digits only.
pub open spec fn all_digits(s: Seq<char>) -> bool {
    forall|i: int| 0 <= i < s.len() ==> '0' <= #[trigger] s[i] && s[i] <= '9'
}

/// The number that a string of ASCII digits denotes.
pub open spec fn digits_value(s: Seq<char>) -> nat
    decreases s.len(),
{
    if s.len() == 0 {
        0
    } else {
        digits_value(s.drop_last()) * 10 + ((s.last() as u32) - 48) as nat
    }
}

/// A `u32` written in decimal, with an optional leading `+`, as
/// `str::parse::<u32>` reads it.
pub open spec fn parse_u32_spec(s: Seq<char>) -> Option<u32> {
    let d = if s.len() > 0 && s[0] == '+' {
        s.subrange(1, s.len() as int)
    } else {
        s
    };
    if d.len() > 0 && all_digits(d) && digits_value(d) <= u32::MAX {
        Some(digits_value(d) as u32)
    } else {
        None
    }
}

/// The merge that a line states: exactly two whitespace-separated numbers.
pub open spec fn parse_merge_line(l: Seq<char>) -> Option<(u32, u32)> {
    let f = fields(l);
    if f.len() == 2 && parse_u32_spec(f[0]) is Some && parse_u32_spec(f[1]) is Some {
        Some((parse_u32_spec(f[0])->Some_0, parse_u32_spec(f[1])->Some_0))
    } else {
        None
    }
}

/// The merges that the lines state, in order; other lines are skipped.
pub open spec fn pairs_of(ls: Seq<Seq<char>>) -> Seq<(u32, u32)>
    decreases ls.len(),
{
    if ls.len() == 0 {
        Seq::empty()
    } else {
        match parse_merge_line(ls.last()) {
            Some(p) => pairs_of(ls.drop_last()).push(p),
            None => pairs_of(ls.drop_last()),
        }
    }
}

/// `s` without leading whitespace.
pub open spec fn trim_start(s: Seq<char>) -> Seq<char>
    decreases s.len(),
{
    if s.len() > 0 && is_ws(s[0]) {
        trim_start(s.subrange(1, s.len() as int))
    } else {
        s
    }
}

/// `s` without trailing whitespace.
pub open spec fn trim_end(s: Seq<char>) -> Seq<char>
    decreases s.len(),
{
    if s.len() > 0 && is_ws(s.last()) {
        trim_end(s.drop_last())
    } else {
        s
    }
}

/// The pattern that a model text states: its first line, trimmed.
pub open spec fn model_pattern(s: Seq<char>) -> Seq<char> {
    let ls = lines_of(s);
    if ls.len() > 0 {
        trim_end(trim_start(ls[0]))
    } else {
        Seq::empty()
    }
}

/// The merges that a model text states: those of the lines after the first.
pub open spec fn model_pairs(s: Seq<char>) -> Seq<(u32, u32)> {
    let ls = lines_of(s);
    if ls.len() > 0 {
        pairs_of(ls.subrange(1, ls.len() as int))
    } else {
        Seq::empty()
    }
}

pub proof fn lemma_raw_split_nonempty(s: Seq<char>)
    ensures
        raw_split(s).len() >= 1,
    decreases s.len(),
{
    if s.len() > 0 {
        lemma_raw_split_nonempty(s.drop_last());
    }
}

/// Text after a newline splits on its own.
pub proof fn lemma_raw_split_append(s: Seq<char>, t: Seq<char>)
    requires
        s.len() > 0,
        s.last() == '\n',
    ensures
        raw_split(s + t) == raw_split(s).drop_last() + raw_split(t),
    decreases t.len(),
{
    lemma_raw_split_nonempty(s.drop_last());
    if t.len() == 0 {
        assert(s + t =~= s);
        assert(raw_split(s).drop_last() + raw_split(t) =~= raw_split(s));
    } else {
        let t0 = t.drop_last();
        lemma_raw_split_append(s, t0);
        lemma_raw_split_nonempty(t0);
        assert((s + t).drop_last() =~= s + t0);
        assert((s + t).last() == t.last());
        let a = raw_split(s).drop_last();
        let r0 = raw_split(t0);
        if t.last() == '\n' {
            assert((a + r0).push(Seq::empty()) =~= a + r0.push(Seq::empty()));
        } else {
            assert((a + r0).drop_last().push((a + r0).last().push(t.last())) =~= a + r0.drop_last().push(
                r0.last().push(t.last()),
            ));
        }
    }
}

/// Text without a newline is one piece.
pub proof fn lemma_raw_split_single(w: Seq<char>)
    requires
        forall|i: int| 0 <= i < w.len() ==> w[i] != '\n',
    ensures
        raw_split(w) == seq![w],
    decreases w.len(),
{
    if w.len() > 0 {
        lemma_raw_split_single(w.drop_last());
        assert(w[w.len() - 1] != '\n');
        assert(w.drop_last().push(w.last()) =~= w);
        assert(seq![w.drop_last()].drop_last().push(w.drop_last().push(w.last())) =~= seq![w]);
    } else {
        assert(w =~= Seq::<char>::empty());
    }
}

pub proof fn lemma_raw_split_line(w: Seq<char>)
    requires
        forall|i: int| 0 <= i < w.len() ==> w[i] != '\n',
    ensures
        raw_split(w.push('\n')) == seq![w, Seq::<char>::empty()],
{
    lemma_raw_split_single(w);
    assert(w.push('\n').drop_last() =~= w);
    assert(seq![w].push(Seq::<char>::empty()) =~= seq![w, Seq::<char>::empty()]);
}

pub proof fn lemma_digit_char(d: nat)
    requires
        d < 10,
    ensures
        digit_char(d) as u32 == 48 + d,
        '0' <= digit_char(d) && digit_char(d) <= '9',
{
}

pub proof fn lemma_decimal_digits(n: nat)
    ensures
        decimal(n).len() > 0,
        all_digits(decimal(n)),
        digits_value(decimal(n)) == n,
    decreases n,
{
    lemma_digit_char(n % 10);
    if n < 10 {
        let d = decimal(n);
        assert(d.drop_last() =~= Seq::<char>::empty());
        assert(n % 10 == n);
        assert(digits_value(Seq::<char>::empty()) == 0);
        assert(d.last() == digit_char(n));
        assert(digits_value(d) == digits_value(d.drop_last()) * 10 + ((d.last() as u32) - 48) as nat);
    } else {
        lemma_decimal_digits(n / 10);
        let d = decimal(n);
        assert(d.drop_last() =~= decimal(n / 10));
        assert((n / 10) * 10 + n % 10 == n) by (nonlinear_arith);
        assert(d.last() == digit_char(n % 10));
        assert(digits_value(d) == digits_value(d.drop_last()) * 10 + ((d.last() as u32) - 48) as nat);
        assert forall|i: int| 0 <= i < d.len() implies '0' <= #[trigger] d[i] && d[i] <= '9' by {
            if i < d.len() - 1 {
                assert(d[i] == decimal(n / 10)[i]);
            }
        }
    }
}

pub proof fn lemma_parse_decimal(n: u32)
    ensures
        parse_u32_spec(decimal(n as nat)) == Some(n),
{
    lemma_decimal_digits(n as nat);
    let d = decimal(n as nat);
    assert(d[0] != '+') by {
        assert('0' <= d[0]);
    }
}

/// A run of non-whitespace characters after whitespace is one more field.
pub proof fn lemma_fields_append_word(s: Seq<char>, w: Seq<char>)
    requires
        s.len() == 0 || is_ws(s.last()),
        w.len() > 0,
        forall|i: int| 0 <= i < w.len() ==> !is_ws(#[trigger] w[i]),
    ensures
        fields(s + w) == fields(s).push(w),
    decreases w.len(),
{
    if w.len() == 1 {
        assert((s + w).drop_last() =~= s);
        assert(seq![w[0]] =~= w);
    } else {
        let w0 = w.drop_last();
        lemma_fields_append_word(s, w0);
        assert((s + w).drop_last() =~= s + w0);
        assert(!is_ws(w[w.len() - 1]));
        assert(!is_ws(w[w.len() - 2]));
        assert((s + w)[(s + w).len() - 2] == w[w.len() - 2]);
        assert((s + w).last() == w[w.len() - 1]);
        assert(w0.push(w.last()) =~= w);
        assert(fields(s).push(w0).drop_last() =~= fields(s));
        assert(fields(s).push(w0).last() == w0);
    }
}

pub proof fn lemma_decimal_not_ws(n: nat)
    ensures
        forall|i: int| 0 <= i < decimal(n).len() ==> !is_ws(#[trigger] decimal(n)[i]),
        forall|i: int| 0 <= i < decimal(n).len() ==> #[trigger] decimal(n)[i] != '\n',
{
    lemma_decimal_digits(n);
    assert forall|i: int| 0 <= i < decimal(n).len() implies !is_ws(#[trigger] decimal(n)[i]) && decimal(n)[i] != '\n' by {
        assert('0' <= decimal(n)[i] && decimal(n)[i] <= '9');
    }
}

proof fn lemma_fields_two_words(a: Seq<char>, b: Seq<char>)
    requires
        a.len() > 0,
        b.len() > 0,
        forall|i: int| 0 <= i < a.len() ==> !is_ws(#[trigger] a[i]),
        forall|i: int| 0 <= i < b.len() ==> !is_ws(#[trigger] b[i]),
    ensures
        fields(a + seq![' '] + b) == seq![a, b],
{
    lemma_fields_append_word(Seq::empty(), a);
    assert(Seq::<char>::empty() + a =~= a);
    assert(fields(Seq::<char>::empty()) =~= Seq::<Seq<char>>::empty());
    let sa = a + seq![' '];
    assert(sa.drop_last() =~= a);
    assert(sa.last() == ' ');
    assert(fields(sa) == fields(a));
    lemma_fields_append_word(sa, b);
    assert(Seq::<Seq<char>>::empty().push(a).push(b) =~= seq![a, b]);
}

pub proof fn lemma_parse_merge_line(p: (u32, u32))
    ensures
        parse_merge_line(merge_line(p)) == Some(p),
        forall|i: int| 0 <= i < merge_line(p).len() ==> #[trigger] merge_line(p)[i] != '\n',
{
    let a = decimal(p.0 as nat);
    let b = decimal(p.1 as nat);
    lemma_decimal_not_ws(p.0 as nat);
    lemma_decimal_not_ws(p.1 as nat);
    lemma_decimal_digits(p.0 as nat);
    lemma_decimal_digits(p.1 as nat);
    lemma_fields_two_words(a, b);
    lemma_parse_decimal(p.0);
    lemma_parse_decimal(p.1);
    let l = merge_line(p);
    assert forall|i: int| 0 <= i < l.len() implies #[trigger] l[i] != '\n' by {
        if i < a.len() {
            assert(l[i] == a[i]);
        } else if i > a.len() {
            assert(l[i] == b[i - a.len() - 1]);
        }
    }
}

/// The lines of a model text: the pattern, then one line per merge.
pub proof fn lemma_model_lines(pattern: Seq<char>, m: Seq<(u32, u32)>)
    requires
        forall|i: int| 0 <= i < pattern.len() ==> pattern[i] != '\n',
    ensures
        raw_split(model_spec(pattern, m)) == seq![pattern] + Seq::new(
            m.len(),
            |i: int| merge_line(m[i]),
        ).push(Seq::empty()),
    decreases m.len(),
{
    if m.len() == 0 {
        assert(model_spec(pattern, m) =~= pattern.push('\n'));
        lemma_raw_split_line(pattern);
        assert(seq![pattern] + Seq::new(m.len(), |i: int| merge_line(m[i])).push(Seq::empty())
            =~= seq![pattern, Seq::<char>::empty()]);
    } else {
        let m0 = m.drop_last();
        lemma_model_lines(pattern, m0);
        let s = model_spec(pattern, m0);
        let l = merge_line(m.last());
        assert(model_spec(pattern, m) =~= s + l.push('\n'));
        assert(s.len() > 0 && s.last() == '\n') by {
            if m0.len() > 0 {
                assert(s.last() == merge_lines(m0).last());
            }
        }
        lemma_parse_merge_line(m.last());
        lemma_raw_split_append(s, l.push('\n'));
        lemma_raw_split_line(l);
        assert((seq![pattern] + Seq::new(m0.len(), |i: int| merge_line(m0[i])).push(Seq::empty())).drop_last()
            + seq![l, Seq::<char>::empty()] =~= seq![pattern] + Seq::new(m.len(), |i: int| merge_line(m[i])).push(
            Seq::empty(),
        ));
    }
}

pub proof fn lemma_pairs_of_merge_lines(m: Seq<(u32, u32)>)
    ensures
        pairs_of(Seq::new(m.len(), |i: int| merge_line(m[i]))) == m,
    decreases m.len(),
{
    if m.len() > 0 {
        let m0 = m.drop_last();
        lemma_pairs_of_merge_lines(m0);
        let ls = Seq::new(m.len(), |i: int| merge_line(m[i]));
        assert(ls.drop_last() =~= Seq::new(m0.len(), |i: int| merge_line(m0[i])));
        lemma_parse_merge_line(m.last());
        assert(m0.push(m.last()) =~= m);
    }
}

/// Persistence round trip: the model text of a table and a pattern (one
/// line, without surrounding whitespace) states exactly that pattern and
/// that table, in order.
pub proof fn law_model_round_trip(pattern: Seq<char>, m: Seq<(u32, u32)>)
    requires
        forall|i: int| 0 <= i < pattern.len() ==> pattern[i] != '\n',
        trim_end(trim_start(pattern)) == pattern,
    ensures
        model_pattern(model_spec(pattern, m)) == pattern,
        model_pairs(model_spec(pattern, m)) == m,
{
    lemma_model_lines(pattern, m);
    let ms = Seq::new(m.len(), |i: int| merge_line(m[i]));
    let r = seq![pattern] + ms.push(Seq::empty());
    assert(r.last() =~= Seq::<char>::empty());
    let ls = r.drop_last();
    assert(ls =~= seq![pattern] + ms);
    assert(ls.subrange(1, ls.len() as int) =~= ms);
    lemma_pairs_of_merge_lines(m);
}

/// One line of the vocabulary listing: the ID, then the rendered token in
/// brackets.
pub open spec fn vocab_line(id: nat, token: Seq<u8>) -> Seq<char> {
    decimal(id) + seq![' ', '['] + render_spec(token) + seq![']', '\n']
}

/// The vocabulary listing, one line per ID in increasing order.
pub open spec fn vocab_listing(v: Seq<Seq<u8>>) -> Seq<char>
    decreases v.len(),
{
    if v.len() == 0 {
        Seq::empty()
    } else {
        vocab_listing(v.drop_last()) + vocab_line((v.len() - 1) as nat, v.last())
    }
}

/// The characters of several lines.
pub open spec fn lines_view(v: Seq<Vec<char>>) -> Seq<Seq<char>> {
    v.map_values(|l: Vec<char>| l@)
}

fn digit_to_char(d: u32) -> (r: char)
    requires
        d < 10,
    ensures
        r == digit_char(d as nat),
{
    if d == 0 {
        '0'
    } else if d == 1 {
        '1'
    } else if d == 2 {
        '2'
    } else if d == 3 {
        '3'
    } else if d == 4 {
        '4'
    } else if d == 5 {
        '5'
    } else if d == 6 {
        '6'
    } else if d == 7 {
        '7'
    } else if d == 8 {
        '8'
    } else {
        '9'
    }
}

/// The decimal digits of `n`.
pub fn decimal_chars(n: u32) -> (r: Vec<char>)
    ensures
        r@ == decimal(n as nat),
    decreases n,
{
    if n < 10 {
        vec![digit_to_char(n)]
    } else {
        let mut r = decimal_chars(n / 10);
        r.push(digit_to_char(n % 10));
        r
    }
}

/// Whether `c` is whitespace in Unicode's sense.
pub fn is_whitespace(c: char) -> (r: bool)
    ensures
        r == is_ws(c),
{
    let v = c as u32;
    (0x09 <= v && v <= 0x0d) || v == 0x20 || v == 0x85 || v == 0xa0 || v == 0x1680 || (0x2000 <= v
        && v <= 0x200a) || v == 0x2028 || v == 0x2029 || v == 0x202f || v == 0x205f || v == 0x3000
}

/// The lines of `chars`, as `lines_of` states.
pub fn split_lines(chars: &Vec<char>) -> (r: Vec<Vec<char>>)
    ensures
        lines_view(r@) == lines_of(chars@),
{
    let mut done: Vec<Vec<char>> = Vec::new();
    let mut cur: Vec<char> = Vec::new();
    let mut i: usize = 0;
    assert(lines_view(done@).push(cur@) =~= raw_split(chars@.subrange(0, 0)));
    while i < chars.len()
        invariant
            i <= chars@.len(),
            lines_view(done@).push(cur@) == raw_split(chars@.subrange(0, i as int)),
        decreases chars@.len() - i,
    {
        let c = chars[i];
        let ghost pre = chars@.subrange(0, i as int);
        assert(chars@.subrange(0, i + 1).drop_last() =~= pre);
        let ghost prev_done = lines_view(done@);
        if c == '\n' {
            done.push(cur);
            cur = Vec::new();
            assert(lines_view(done@) =~= prev_done.push(lines_view(done@).last()));
            assert(lines_view(done@).push(cur@) =~= raw_split(pre).push(Seq::empty()));
        } else {
            let ghost old_cur = cur@;
            cur.push(c);
            assert(lines_view(done@).push(cur@) =~= raw_split(pre).drop_last().push(old_cur.push(c)));
        }
        i = i + 1;
    }
    assert(chars@.subrange(0, i as int) =~= chars@);
    if cur.len() > 0 {
        done.push(cur);
        assert(lines_view(done@) =~= raw_split(chars@));
    } else {
        assert(lines_view(done@) =~= raw_split(chars@).drop_last());
    }
    done
}

/// The whitespace-separated fields of `line`.
pub fn split_fields(line: &Vec<char>) -> (r: Vec<Vec<char>>)
    ensures
        lines_view(r@) == fields(line@),
{
    let mut done: Vec<Vec<char>> = Vec::new();
    let mut cur: Vec<char> = Vec::new();
    let mut i: usize = 0;
    assert(lines_view(done@) =~= fields(line@.subrange(0, 0)));
    while i < line.len()
        invariant
            i <= line@.len(),
            cur@.len() > 0 ==> fields(line@.subrange(0, i as int)) == lines_view(done@).push(cur@)
                && i > 0 && !is_ws(line@[i - 1]),
            cur@.len() == 0 ==> fields(line@.subrange(0, i as int)) == lines_view(done@) && (i == 0
                || is_ws(line@[i - 1])),
        decreases line@.len() - i,
    {
        let c = line[i];
        let ghost pre = line@.subrange(0, i as int);
        let ghost next = line@.subrange(0, i + 1);
        assert(next.drop_last() =~= pre);
        assert(next.last() == c);
        let ghost prev_done = lines_view(done@);
        let ghost old_cur = cur@;
        if is_whitespace(c) {
            if cur.len() > 0 {
                done.push(cur);
                cur = Vec::new();
                assert(lines_view(done@) =~= prev_done.push(old_cur));
            }
        } else {
            cur.push(c);
            proof {
                if old_cur.len() > 0 {
                    assert(next[next.len() - 2] == line@[i - 1]);
                    assert(fields(next) =~= prev_done.push(old_cur.push(c)));
                } else {
                    assert(fields(next) =~= prev_done.push(seq![c]));
                    assert(cur@ =~= seq![c]);
                }
            }
        }
        i = i + 1;
    }
    assert(line@.subrange(0, i as int) =~= line@);
    if cur.len() > 0 {
        let ghost prev_done = lines_view(done@);
        let ghost last = cur@;
        done.push(cur);
        assert(lines_view(done@) =~= prev_done.push(last));
    }
    done
}

pub proof fn lemma_digits_value_prefix(s: Seq<char>, k: int)
    requires
        all_digits(s),
        0 <= k <= s.len(),
    ensures
        digits_value(s.subrange(0, k)) <= digits_value(s),
    decreases s.len(),
{
    if k < s.len() {
        let s0 = s.drop_last();
        assert(all_digits(s0)) by {
            assert forall|i: int| 0 <= i < s0.len() implies '0' <= #[trigger] s0[i] && s0[i] <= '9' by {
                assert(s0[i] == s[i]);
            }
        }
        lemma_digits_value_prefix(s0, k);
        assert(s0.subrange(0, k) =~= s.subrange(0, k));
        assert('0' <= s[s.len() - 1]);
    } else {
        assert(s.subrange(0, k) =~= s);
    }
}

/// Reads a decimal `u32`, as `parse_u32_spec` states.
pub fn parse_u32_chars(s: &Vec<char>) -> (r: Option<u32>)
    ensures
        r == parse_u32_spec(s@),
{
    let start: usize = if s.len() > 0 && s[0] == '+' {
        1
    } else {
        0
    };
    let ghost d = if s@.len() > 0 && s@[0] == '+' {
        s@.subrange(1, s@.len() as int)
    } else {
        s@
    };
    assert(d =~= s@.subrange(start as int, s@.len() as int));
    assert(parse_u32_spec(s@) == if d.len() > 0 && all_digits(d) && digits_value(d) <= u32::MAX {
        Some(digits_value(d) as u32)
    } else {
        None
    });
    if start == s.len() {
        return None;
    }
    let mut acc: u64 = 0;
    let mut i: usize = start;
    assert(d.subrange(0, 0) =~= Seq::<char>::empty());
    while i < s.len()
        invariant
            start <= i <= s@.len(),
            start < s@.len(),
            d == s@.subrange(start as int, s@.len() as int),
            parse_u32_spec(s@) == if d.len() > 0 && all_digits(d) && digits_value(d) <= u32::MAX {
                Some(digits_value(d) as u32)
            } else {
                None
            },
            all_digits(d.subrange(0, i - start)),
            acc == digits_value(d.subrange(0, i - start)),
            acc <= u32::MAX,
        decreases s@.len() - i,
    {
        let c = s[i];
        let ghost pre = d.subrange(0, i - start);
        let ghost next = d.subrange(0, i - start + 1);
        assert(next.drop_last() =~= pre);
        assert(next.last() == c);
        if !('0' <= c && c <= '9') {
            assert(d[i - start] == c);
            assert(!('0' <= d[i - start] && d[i - start] <= '9'));
            assert(!all_digits(d));
            return None;
        }
        assert(all_digits(next)) by {
            assert forall|j: int| 0 <= j < next.len() implies '0' <= #[trigger] next[j] && next[j] <= '9' by {
                if j < pre.len() {
                    assert(next[j] == pre[j]);
                }
            }
        }
        assert(digits_value(next) == digits_value(pre) * 10 + ((c as u32) - 48) as nat);
        acc = acc * 10 + (c as u32 - 48) as u64;
        assert(acc == digits_value(next));
        if acc > 0xffff_ffff {
            proof {
                if all_digits(d) {
                    lemma_digits_value_prefix(d, i - start + 1);
                    assert(digits_value(d) > u32::MAX);
                }
            }
            return None;
        }
        i = i + 1;
    }
    assert(d.subrange(0, i - start) =~= d);
    Some(acc as u32)
}

/// The merge that `line` states, as `parse_merge_line` reads it.
pub fn parse_line(line: &Vec<char>) -> (r: Option<(u32, u32)>)
    ensures
        r == parse_merge_line(line@),
{
    let f = split_fields(line);
    if f.len() != 2 {
        return None;
    }
    assert(f@[0]@ == fields(line@)[0] && f@[1]@ == fields(line@)[1]);
    match (parse_u32_chars(&f[0]), parse_u32_chars(&f[1])) {
        (Some(a), Some(b)) => Some((a, b)),
        _ => None,
    }
}

/// `s` without leading or trailing whitespace.
pub fn trim_chars(s: &Vec<char>) -> (r: Vec<char>)
    ensures
        r@ == trim_end(trim_start(s@)),
{
    let mut a: usize = 0;
    assert(s@.subrange(0, s@.len() as int) =~= s@);
    while a < s.len() && is_whitespace(s[a])
        invariant
            a <= s@.len(),
            trim_start(s@) == trim_start(s@.subrange(a as int, s@.len() as int)),
        decreases s@.len() - a,
    {
        let ghost t = s@.subrange(a as int, s@.len() as int);
        assert(t.subrange(1, t.len() as int) =~= s@.subrange(a + 1, s@.len() as int));
        a = a + 1;
    }
    let ghost t = s@.subrange(a as int, s@.len() as int);
    assert(trim_start(t) == t);
    let mut b: usize = s.len();
    while b > a && is_whitespace(s[b - 1])
        invariant
            a <= b <= s@.len(),
            t == s@.subrange(a as int, s@.len() as int),
            trim_end(t) == trim_end(s@.subrange(a as int, b as int)),
        decreases b,
    {
        assert(s@.subrange(a as int, b as int).drop_last() =~= s@.subrange(a as int, b - 1));
        b = b - 1;
    }
    let mut r: Vec<char> = Vec::new();
    let mut i: usize = a;
    while i < b
        invariant
            a <= i <= b <= s@.len(),
            r@ == s@.subrange(a as int, i as int),
        decreases b - i,
    {
        r.push(s[i]);
        i = i + 1;
        assert(r@ =~= s@.subrange(a as int, i as int));
    }
    assert(trim_end(s@.subrange(a as int, b as int)) == s@.subrange(a as int, b as int));
    r
}

impl Tokenizer {
    /// The model text of this tokenizer: the pattern on the first line, then
    /// each merge's two operand IDs, one merge per line, in learned order.
    pub fn model_text(&self) -> (r: String)
        ensures
            r@ == model_spec(self.pattern_view(), self@),
    {
        let mut out = chars_of(self.pattern().as_str());
        out.push('\n');
        let merges = self.merges();
        let mut k: usize = 0;
        assert(merges@.subrange(0, 0) =~= Seq::<(u32, u32)>::empty());
        assert(out@ =~= model_spec(self.pattern_view(), merges@.subrange(0, 0)));
        while k < merges.len()
            invariant
                merges@ == self@,
                k <= merges@.len(),
                out@ == model_spec(self.pattern_view(), merges@.subrange(0, k as int)),
            decreases merges@.len() - k,
        {
            let (a, b) = merges[k];
            let ghost prev = out@;
            let da = decimal_chars(a);
            let db = decimal_chars(b);
            push_chars(&mut out, &da);
            out.push(' ');
            push_chars(&mut out, &db);
            out.push('\n');
            let ghost sub = merges@.subrange(0, k + 1);
            assert(sub.drop_last() =~= merges@.subrange(0, k as int));
            assert(out@ =~= model_spec(self.pattern_view(), sub));
            k = k + 1;
        }
        assert(merges@.subrange(0, k as int) =~= merges@);
        string_from_chars(&out)
    }

    /// Loads a model text: the trimmed first line becomes the pattern, and
    /// each later line holding exactly two numbers becomes the next merge;
    /// other lines are skipped. The vocabulary is rebuilt from the merges.
    /// Fails, leaving the state as it was, where the merges do not form a
    /// well-formed table.
    pub fn load_model_text(&mut self, text: &str) -> (r: Result<(), TableError>)
        requires
            old(self).wf(),
        ensures
            final(self).wf(),
            r is Ok <==> merges_wf(model_pairs(text@)),
            r is Ok ==> final(self)@ == model_pairs(text@) && final(self).pattern_view()
                == model_pattern(text@),
            r is Err ==> final(self)@ == old(self)@ && final(self).pattern_view() == old(
                self,
            ).pattern_view(),
    {
        let chars = chars_of(text);
        let lines = split_lines(&chars);
        let ghost ls = lines_of(chars@);
        let mut pattern: Vec<char> = Vec::new();
        let mut pairs: Vec<(u32, u32)> = Vec::new();
        if lines.len() > 0 {
            pattern = trim_chars(&lines[0]);
            let mut i: usize = 1;
            assert(ls.subrange(1, 1) =~= Seq::<Seq<char>>::empty());
            while i < lines.len()
                invariant
                    lines_view(lines@) == ls,
                    1 <= i <= lines@.len(),
                    pairs@ == pairs_of(ls.subrange(1, i as int)),
                decreases lines@.len() - i,
            {
                let parsed = parse_line(&lines[i]);
                let ghost sub = ls.subrange(1, i + 1);
                assert(sub.drop_last() =~= ls.subrange(1, i as int));
                assert(sub.last() == lines@[i as int]@);
                match parsed {
                    Some(p) => {
                        pairs.push(p);
                    },
                    None => {},
                }
                i = i + 1;
            }
        } else {
            assert(pairs@ =~= model_pairs(text@));
        }
        let r = self.set_merges(pairs);
        match r {
            Ok(()) => {
                self.set_pattern(string_from_chars(&pattern));
                Ok(())
            },
            Err(e) => Err(e),
        }
    }

    /// The human-readable vocabulary listing: for each ID in order, a line
    /// `<id> [<rendered token>]`.
    pub fn vocab_text(&self) -> (r: String)
        requires
            self.wf(),
        ensures
            r@ == vocab_listing(self.vocab_view()),
    {
        let vocab = self.vocab();
        let ghost v = self.vocab_view();
        proof {
            self.lemma_wf();
            crate::tokenizers::basic::lemma_vocab_of(self@);
        }
        let mut out: Vec<char> = Vec::new();
        let mut i: usize = 0;
        assert(v.subrange(0, 0) =~= Seq::<Seq<u8>>::empty());
        while i < vocab.len()
            invariant
                v == vocab@.map_values(|t: Vec<u8>| t@),
                v.len() <= u32::MAX,
                i <= vocab@.len(),
                out@ == vocab_listing(v.subrange(0, i as int)),
            decreases vocab@.len() - i,
        {
            let digits = decimal_chars(i as u32);
            let rendered = render_token_chars(vocab[i].as_slice());
            push_chars(&mut out, &digits);
            out.push(' ');
            out.push('[');
            push_chars(&mut out, &rendered);
            out.push(']');
            out.push('\n');
            let ghost sub = v.subrange(0, i + 1);
            assert(sub.drop_last() =~= v.subrange(0, i as int));
            assert(sub.last() == vocab@[i as int]@);
            assert(out@ =~= vocab_listing(sub));
            i = i + 1;
        }
        assert(v.subrange(0, i as int) =~= v);
        string_from_chars(&out)
    }
}

} // verus!
