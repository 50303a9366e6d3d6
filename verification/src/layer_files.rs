//! The names of the copper layer files: the side word and the file
//! extension of each copper layer, and the `FileFunction` value the writer
//! gives a copper file. The reader finds that layer again in what the writer
//! put down (`lemma_copper_function_reads_back`).

use vstd::prelude::*;
use crate::text::{push_str, same_str, ascii_lower, chars_of, to_ascii_lower, split_char, lines_of, strip_cr,
    lemma_split_char_nonempty, is_ascii_digit};
use crate::numfmt::{nat_digits, padded_digits, push_nat};
use crate::decimal::all_digits;
use crate::gerber::{starts, ends, strip_all_suffix, first_function_line, function_of, file_function_of,
    read_unsigned};
use crate::gerber_write::{header_text, stamp_text, year_text, lemma_padded_digits};
use crate::emit::lemma_nat_digits;

verus! {

/// The side word of copper layer `idx` in a stack of `layers`: a lone layer
/// is the bottom one when its name starts with `b` or `B`, else the top; in
/// a stack of several, the first is the top, the last the bottom and the
/// others inner layers.
pub open spec fn side_of(layers: Seq<String>, idx: int) -> Seq<char> {
    let n = layers.len();
    if n == 1 {
        if layers[0]@.len() > 0 && ascii_lower(layers[0]@[0]) == 'b' { "Bot"@ } else { "Top"@ }
    } else if idx == 0 {
        "Top"@
    } else if idx == n - 1 {
        "Bot"@
    } else {
        "Inr"@
    }
}

/// The file extension of copper layer `idx`: `gtl` on top, `gbl` at the
/// bottom, and `g` with the layer's number inside.
pub open spec fn copper_ext_of(layers: Seq<String>, idx: int) -> Seq<char> {
    let n = layers.len();
    if side_of(layers, idx) == "Top"@ {
        "gtl"@
    } else if side_of(layers, idx) == "Bot"@ {
        "gbl"@
    } else {
        "g"@ + nat_digits((idx + 1) as nat)
    }
}

/// The `FileFunction` value of copper layer `idx`: `Copper,L<n>,<side>`,
/// layers counted from one.
pub open spec fn copper_function_of(layers: Seq<String>, idx: int) -> Seq<char> {
    "Copper,L"@ + nat_digits((idx + 1) as nat) + ","@ + side_of(layers, idx)
}

/// The side word of copper layer `idx`.
pub fn side_word(layers: &Vec<String>, idx: usize) -> (r: &'static str)
    requires layers.len() > 0 || idx == 0,
    ensures r@ == side_of(layers@, idx as int),
{
    let n = layers.len();
    if n == 1 {
        let name = chars_of(layers[0].as_str());
        if name.len() > 0 && to_ascii_lower(name[0]) == 'b' {
            return "Bot";
        }
        return "Top";
    }
    if idx == 0 {
        "Top"
    } else if idx == n - 1 {
        "Bot"
    } else {
        "Inr"
    }
}

/// The file extension of copper layer `idx`.
pub fn copper_ext(layers: &Vec<String>, idx: usize) -> (r: String)
    requires layers.len() > 0 || idx == 0, idx < usize::MAX,
    ensures r@ == copper_ext_of(layers@, idx as int),
{
    let w = side_word(layers, idx);
    proof {
        reveal_strlit("Top");
        reveal_strlit("Bot");
        reveal_strlit("Inr");
        reveal_strlit("gtl");
        reveal_strlit("gbl");
        reveal_strlit("g");
    }
    let mut r = String::new();
    if same_str(w, "Top") {
        push_str(&mut r, "gtl");
    } else if same_str(w, "Bot") {
        push_str(&mut r, "gbl");
    } else {
        push_str(&mut r, "g");
        push_nat(&mut r, idx as u64 + 1);
    }
    r
}

/// The `FileFunction` value of copper layer `idx`.
pub fn copper_function(layers: &Vec<String>, idx: usize) -> (r: String)
    requires layers.len() > 0 || idx == 0, idx < usize::MAX,
    ensures r@ == copper_function_of(layers@, idx as int),
{
    let mut r = String::new();
    push_str(&mut r, "Copper,L");
    push_nat(&mut r, idx as u64 + 1);
    push_str(&mut r, ",");
    push_str(&mut r, side_word(layers, idx));
    r
}

proof fn lemma_split_whole(x: Seq<char>, c: char)
    requires !x.contains(c),
    ensures split_char(x, c) == seq![x],
    decreases x.len(),
{
    if x.len() == 0 {
        assert(x =~= Seq::<char>::empty());
    } else {
        assert(!x.drop_last().contains(c)) by {
            if x.drop_last().contains(c) {
                let i = choose|i: int| 0 <= i < x.drop_last().len() && x.drop_last()[i] == c;
                assert(x[i] == c);
            }
        }
        lemma_split_whole(x.drop_last(), c);
        assert(x.last() != c) by { if x.last() == c { assert(x[x.len() - 1] == c); } }
        assert(x.drop_last().push(x.last()) =~= x);
        assert(seq![x.drop_last()].update(0, x.drop_last().push(x.last())) =~= seq![x]);
    }
}

proof fn lemma_split_after(a: Seq<char>, c: char, b: Seq<char>)
    requires !a.contains(c),
    ensures split_char(a + seq![c] + b, c) == seq![a] + split_char(b, c),
    decreases b.len(),
{
    lemma_split_whole(a, c);
    if b.len() == 0 {
        assert(a + seq![c] + b =~= a.push(c));
        assert((a.push(c)).drop_last() =~= a);
        assert(seq![a] + split_char(b, c) =~= seq![a].push(Seq::empty()));
    } else {
        let w = a + seq![c] + b;
        assert(w.drop_last() =~= a + seq![c] + b.drop_last());
        assert(w.last() == b.last());
        lemma_split_after(a, c, b.drop_last());
        lemma_split_char_nonempty(b.drop_last(), c);
        let sb = split_char(b.drop_last(), c);
        if b.last() == c {
            assert(split_char(w, c) =~= (seq![a] + sb).push(Seq::empty()));
            assert(seq![a] + split_char(b, c) =~= seq![a] + sb.push(Seq::empty()));
        } else {
            assert(split_char(w, c) =~= (seq![a] + sb).update(sb.len() as int, sb.last().push(b.last())));
            assert(seq![a] + split_char(b, c) =~= seq![a] + sb.update(sb.len() - 1, sb.last().push(b.last())));
        }
    }
}

proof fn lemma_lines_after(a: Seq<char>, b: Seq<char>)
    requires !a.contains('\n'),
    ensures lines_of(a + seq!['\n'] + b) == seq![strip_cr(a)] + lines_of(b),
{
    lemma_split_after(a, '\n', b);
    lemma_split_char_nonempty(b, '\n');
    let q = split_char(b, '\n');
    let ps = seq![a] + q;
    assert(ps.take(ps.len() - 1) =~= seq![a] + q.take(q.len() - 1));
    assert(ps[ps.len() - 1] == q[q.len() - 1]);
    let f = |l: Seq<char>| strip_cr(l);
    assert((seq![a] + q.take(q.len() - 1)).map_values(f) =~= seq![strip_cr(a)] + q.take(q.len() - 1).map_values(f));
    if q[q.len() - 1].len() == 0 {
        assert(lines_of(a + seq!['\n'] + b) =~= seq![strip_cr(a)] + lines_of(b));
    } else {
        assert(lines_of(a + seq!['\n'] + b) =~= seq![strip_cr(a)] + lines_of(b));
    }
}

proof fn lemma_digits_lack(s: Seq<char>, c: char)
    requires all_digits(s), !is_ascii_digit(c),
    ensures !s.contains(c),
{
    if s.contains(c) {
        let i = choose|i: int| 0 <= i < s.len() && s[i] == c;
        assert(is_ascii_digit(s[i]));
    }
}

proof fn lemma_stamp_one_line(t: (i32, u8, u8, u8, u8, u8))
    ensures !stamp_text(t).contains('\n'),
{
    reveal_strlit("+00:00");
    let y = t.0 as int;
    let yt = year_text(y);
    assert(!yt.contains('\n')) by {
        if y >= 0 {
            if y <= 9999 {
                lemma_padded_digits(y as nat, 4);
                lemma_digits_lack(yt, '\n');
            } else {
                lemma_nat_digits(y as nat);
                lemma_digits_lack(yt, '\n');
            }
        } else {
            let d = if -y <= 999 { padded_digits((-y) as nat, 3) } else { nat_digits((-y) as nat) };
            if -y <= 999 { lemma_padded_digits((-y) as nat, 3); } else { lemma_nat_digits((-y) as nat); }
            lemma_digits_lack(d, '\n');
            assert(yt =~= seq!['-'] + d);
            if yt.contains('\n') {
                let i = choose|i: int| 0 <= i < yt.len() && yt[i] == '\n';
                assert(d[i - 1] == '\n');
            }
        }
    }
    let p1 = padded_digits(t.1 as nat, 2);
    let p2 = padded_digits(t.2 as nat, 2);
    let p3 = padded_digits(t.3 as nat, 2);
    let p4 = padded_digits(t.4 as nat, 2);
    let p5 = padded_digits(t.5 as nat, 2);
    lemma_padded_digits(t.1 as nat, 2);
    lemma_padded_digits(t.2 as nat, 2);
    lemma_padded_digits(t.3 as nat, 2);
    lemma_padded_digits(t.4 as nat, 2);
    lemma_padded_digits(t.5 as nat, 2);
    let s = stamp_text(t);
    if s.contains('\n') {
        let i = choose|i: int| 0 <= i < s.len() && s[i] == '\n';
        let n0 = yt.len() as int;
        if i < n0 {
            assert(yt[i] == '\n');
        } else if n0 + 1 <= i < n0 + 3 {
            assert(is_ascii_digit(p1[i - n0 - 1]));
        } else if n0 + 4 <= i < n0 + 6 {
            assert(is_ascii_digit(p2[i - n0 - 4]));
        } else if n0 + 7 <= i < n0 + 9 {
            assert(is_ascii_digit(p3[i - n0 - 7]));
        } else if n0 + 10 <= i < n0 + 12 {
            assert(is_ascii_digit(p4[i - n0 - 10]));
        } else if n0 + 13 <= i < n0 + 15 {
            assert(is_ascii_digit(p5[i - n0 - 13]));
        }
    }
}

proof fn lemma_concat_lacks(x: Seq<char>, y: Seq<char>, c: char)
    requires !x.contains(c), !y.contains(c),
    ensures !(x + y).contains(c),
{
    if (x + y).contains(c) {
        let i = choose|i: int| 0 <= i < (x + y).len() && (x + y)[i] == c;
        if i < x.len() { assert(x[i] == c); } else { assert(y[i - x.len()] == c); }
    }
}

proof fn lemma_side_word(layers: Seq<String>, idx: int)
    ensures
        side_of(layers, idx).len() == 3,
        !side_of(layers, idx).contains('\n'),
        !side_of(layers, idx).contains(','),
        side_of(layers, idx)[2] != '%',
{
    reveal_strlit("Top");
    reveal_strlit("Bot");
    reveal_strlit("Inr");
    let w = side_of(layers, idx);
    if w.contains('\n') {
        let i = choose|i: int| 0 <= i < w.len() && w[i] == '\n';
    }
    if w.contains(',') {
        let i = choose|i: int| 0 <= i < w.len() && w[i] == ',';
    }
}

/// A copper file written for layer `idx` reads back, by its file function,
/// as copper layer `idx + 1`, whatever its polarity, its date and its body.
pub proof fn lemma_copper_function_reads_back(layers: Seq<String>, idx: int, polarity: Seq<char>,
    t: (i32, u8, u8, u8, u8, u8), body: Seq<char>)
    requires 0 <= idx < layers.len(), layers.len() <= usize::MAX,
    ensures
        file_function_of(header_text(copper_function_of(layers, idx), polarity, t) + body)
            == (Some((idx + 1) as nat), true),
{
    reveal_strlit("%TF.GenerationSoftware,flatland,pcb,0.1*%\n");
    reveal_strlit("%TF.CreationDate,");
    reveal_strlit("*%\n");
    reveal_strlit("%TF.FileFunction,");
    reveal_strlit("*%");
    reveal_strlit("Copper,L");
    reveal_strlit(",");
    reveal_strlit("Copper");
    let f = copper_function_of(layers, idx);
    let side = side_of(layers, idx);
    let digits = nat_digits((idx + 1) as nat);
    let pre = "%TF.FileFunction,"@;
    let a = "%TF.GenerationSoftware,flatland,pcb,0.1*%"@;
    reveal_strlit("%TF.GenerationSoftware,flatland,pcb,0.1*%");
    let b = "%TF.CreationDate,"@ + stamp_text(t) + "*%"@;
    let c = pre + f + "*%"@;
    let rest = "%TF.FilePolarity,"@ + polarity + "*%\n"@ + "%FSLAX46Y46*%\n%MOMM*%\n"@ + body;
    let text = header_text(f, polarity, t) + body;
    assert(text =~= a + seq!['\n'] + (b + seq!['\n'] + (c + seq!['\n'] + rest)));

    // The first three lines are whole lines.
    lemma_side_word(layers, idx);
    lemma_nat_digits((idx + 1) as nat);
    lemma_digits_lack(digits, '\n');
    lemma_digits_lack(digits, ',');
    lemma_stamp_one_line(t);
    assert(!a.contains('\n')) by {
        if a.contains('\n') { let i = choose|i: int| 0 <= i < a.len() && a[i] == '\n'; }
    }
    assert(!"%TF.CreationDate,"@.contains('\n')) by {
        let x = "%TF.CreationDate,"@;
        if x.contains('\n') { let i = choose|i: int| 0 <= i < x.len() && x[i] == '\n'; }
    }
    assert(!"*%"@.contains('\n')) by {
        let x = "*%"@;
        if x.contains('\n') { let i = choose|i: int| 0 <= i < x.len() && x[i] == '\n'; }
    }
    assert(!pre.contains('\n')) by {
        if pre.contains('\n') { let i = choose|i: int| 0 <= i < pre.len() && pre[i] == '\n'; }
    }
    assert(!"Copper,L"@.contains('\n')) by {
        let x = "Copper,L"@;
        if x.contains('\n') { let i = choose|i: int| 0 <= i < x.len() && x[i] == '\n'; }
    }
    assert(!","@.contains('\n')) by {
        let x = ","@;
        if x.contains('\n') { let i = choose|i: int| 0 <= i < x.len() && x[i] == '\n'; }
    }
    lemma_concat_lacks("%TF.CreationDate,"@, stamp_text(t), '\n');
    lemma_concat_lacks("%TF.CreationDate,"@ + stamp_text(t), "*%"@, '\n');
    lemma_concat_lacks("Copper,L"@, digits, '\n');
    lemma_concat_lacks("Copper,L"@ + digits, ","@, '\n');
    lemma_concat_lacks("Copper,L"@ + digits + ","@, side, '\n');
    lemma_concat_lacks(pre, f, '\n');
    lemma_concat_lacks(pre + f, "*%"@, '\n');
    lemma_lines_after(a, b + seq!['\n'] + (c + seq!['\n'] + rest));
    lemma_lines_after(b, c + seq!['\n'] + rest);
    lemma_lines_after(c, rest);
    assert(strip_cr(a) == a);
    assert(strip_cr(b) == b);
    assert(strip_cr(c) == c);
    let ls = lines_of(text);
    assert(ls =~= seq![a, b, c] + lines_of(rest));

    // The third line is the first that holds the file function.
    assert(!starts(a, pre)) by { assert(a.take(17)[4] != pre[4]); }
    assert(!starts(b, pre)) by { assert(b.take(17)[4] != pre[4]); }
    assert(starts(c, pre)) by { assert(c.take(17) =~= pre); }
    assert(first_function_line(ls, 0) == 2) by {
        assert(first_function_line(ls, 2) == 2);
        assert(first_function_line(ls, 1) == 2);
    }

    // Its value is the function that was written.
    let v = c.skip(17);
    assert(v =~= f + "*%"@);
    assert(ends(v, "*%"@)) by { assert(v.skip(v.len() - 2) =~= "*%"@); }
    assert(v.take(v.len() - 2) =~= f);
    assert(f.len() >= 2);
    assert(!ends(f, "*%"@)) by {
        assert(f[f.len() - 1] == side[2]);
        assert(f.skip(f.len() - 2)[1] == f[f.len() - 1]);
    }
    assert(strip_all_suffix(f, "*%"@) == f);
    assert(strip_all_suffix(v, "*%"@) == f);

    // Its pieces are `Copper`, `L<n>` and the side.
    let ln = seq!['L'] + digits;
    assert(!"Copper"@.contains(',')) by {
        let x = "Copper"@;
        if x.contains(',') { let i = choose|i: int| 0 <= i < x.len() && x[i] == ','; }
    }
    assert(!ln.contains(',')) by {
        if ln.contains(',') {
            let i = choose|i: int| 0 <= i < ln.len() && ln[i] == ',';
            assert(digits[i - 1] == ',');
        }
    }
    assert(f =~= "Copper"@ + seq![','] + (ln + seq![','] + side));
    lemma_split_after("Copper"@, ',', ln + seq![','] + side);
    lemma_split_after(ln, ',', side);
    lemma_split_whole(side, ',');
    let parts = split_char(f, ',');
    assert(parts =~= seq!["Copper"@, ln, side]);
    assert(ln.drop_first() =~= digits);
    assert(digits[0] != '+') by { assert(is_ascii_digit(digits[0])); }
    assert(read_unsigned(digits, usize::MAX as nat) == Some((idx + 1) as nat));
    assert(function_of(f) == (Some((idx + 1) as nat), true));
}

} // verus!
