use vstd::prelude::*;

verus! {

/// The fields of a comma-separated list, read one character at a time:
/// a comma closes the current field and opens an empty one.
pub open spec fn split_commas(s: Seq<char>) -> Seq<Seq<char>>
    decreases s.len(),
{
    if s.len() == 0 {
        seq![Seq::<char>::empty()]
    } else {
        let p = split_commas(s.drop_last());
        if s.last() == ',' {
            p.push(Seq::<char>::empty())
        } else {
            p.update(p.len() - 1, p.last().push(s.last()))
        }
    }
}

/// The fields joined with commas between them.
pub open spec fn join_commas(p: Seq<Seq<char>>) -> Seq<char>
    decreases p.len(),
{
    if p.len() == 0 {
        Seq::<char>::empty()
    } else if p.len() == 1 {
        p[0]
    } else {
        join_commas(p.drop_last()) + seq![','] + p.last()
    }
}

/// A number's text with a zero fraction (`4.0`) written as the integer (`4`).
pub open spec fn plain_number(t: Seq<char>) -> Seq<char> {
    if t.len() >= 2 && t[t.len() - 2] == '.' && t[t.len() - 1] == '0' {
        t.subrange(0, t.len() - 2)
    } else {
        t
    }
}

pub open spec fn digit_char(d: nat) -> char {
    if d == 0 { '0' } else if d == 1 { '1' } else if d == 2 { '2' } else if d == 3 { '3' }
    else if d == 4 { '4' } else if d == 5 { '5' } else if d == 6 { '6' } else if d == 7 { '7' }
    else if d == 8 { '8' } else { '9' }
}

/// Decimal digits of a natural number, most significant first.
pub open spec fn decimal_text(n: nat) -> Seq<char>
    decreases n,
{
    if n < 10 {
        seq![digit_char(n)]
    } else {
        decimal_text(n / 10) + seq![digit_char(n % 10)]
    }
}

/// Character-wise equality of a string with a literal given as a sequence.
pub fn text_is(s: &str, lit: &str) -> (r: bool)
    ensures
        r == (s@ == lit@),
{
    let n = s.unicode_len();
    if n != lit.unicode_len() {
        return false;
    }
    let mut i: usize = 0;
    while i < n
        invariant
            n == s@.len(),
            n == lit@.len(),
            i <= n,
            s@.subrange(0, i as int) == lit@.subrange(0, i as int),
        decreases n - i,
    {
        if s.get_char(i) != lit.get_char(i) {
            assert(s@[i as int] != lit@[i as int]);
            return false;
        }
        assert(s@.subrange(0, i + 1) == s@.subrange(0, i as int).push(s@[i as int]));
        assert(lit@.subrange(0, i + 1) == lit@.subrange(0, i as int).push(lit@[i as int]));
        i = i + 1;
    }
    assert(s@ == s@.subrange(0, n as int));
    assert(lit@ == lit@.subrange(0, n as int));
    true
}

/// The one-character text of a decimal digit.
fn digit_text(d: u64) -> (r: &'static str)
    requires
        d < 10,
    ensures
        r@ == seq![digit_char(d as nat)],
{
    proof {
        reveal_strlit("0");
        reveal_strlit("1");
        reveal_strlit("2");
        reveal_strlit("3");
        reveal_strlit("4");
        reveal_strlit("5");
        reveal_strlit("6");
        reveal_strlit("7");
        reveal_strlit("8");
        reveal_strlit("9");
    }
    let r = if d == 0 { "0" } else if d == 1 { "1" } else if d == 2 { "2" } else if d == 3 { "3" }
        else if d == 4 { "4" } else if d == 5 { "5" } else if d == 6 { "6" } else if d == 7 { "7" }
        else if d == 8 { "8" } else { "9" };
    assert(r@ =~= seq![digit_char(d as nat)]);
    r
}

/// The decimal digits of a number, most significant first.
pub fn decimal(n: u64) -> (r: String)
    ensures
        r@ == decimal_text(n as nat),
    decreases n,
{
    if n < 10 {
        String::from_str(digit_text(n))
    } else {
        let mut s = decimal(n / 10);
        s.append(digit_text(n % 10));
        s
    }
}

/// Splits a comma-separated list into its fields; an empty list gives one empty field.
pub fn keys_to_vec(keys: &str) -> (r: Vec<String>)
    ensures
        texts(r@) == split_commas(keys@),
{
    let n = keys.unicode_len();
    let mut parts: Vec<String> = Vec::new();
    let mut start: usize = 0;
    let mut i: usize = 0;
    assert(keys@.subrange(0, 0) =~= Seq::<char>::empty());
    assert(texts(parts@).push(keys@.subrange(0, 0)) =~= seq![Seq::<char>::empty()]);
    while i < n
        invariant
            n == keys@.len(),
            start <= i <= n,
            split_commas(keys@.subrange(0, i as int)) == texts(parts@).push(
                keys@.subrange(start as int, i as int),
            ),
        decreases n - i,
    {
        let ghost pre = keys@.subrange(0, i as int);
        let ghost before = texts(parts@);
        let ghost cur = keys@.subrange(start as int, i as int);
        let c = keys.get_char(i);
        assert(keys@.subrange(0, i + 1) =~= pre.push(c));
        assert(pre.push(c).drop_last() =~= pre);
        if c == ',' {
            let field = keys.substring_char(start, i).to_string();
            parts.push(field);
            start = i + 1;
            assert(texts(parts@) =~= before.push(cur));
            assert(keys@.subrange(start as int, i + 1) =~= Seq::<char>::empty());
            assert(split_commas(pre.push(c)) == before.push(cur).push(Seq::<char>::empty()));
        } else {
            assert(keys@.subrange(start as int, i + 1) =~= cur.push(c));
            let ghost p = before.push(cur);
            assert(p.update(p.len() - 1, p.last().push(c)) =~= before.push(cur.push(c)));
        }
        i = i + 1;
    }
    assert(keys@.subrange(0, n as int) == keys@);
    let last = keys.substring_char(start, n).to_string();
    let ghost before = texts(parts@);
    parts.push(last);
    assert(texts(parts@) =~= before.push(keys@.subrange(start as int, n as int)));
    parts
}

/// The texts of a sequence of strings.
pub open spec fn texts(v: Seq<String>) -> Seq<Seq<char>> {
    v.map_values(|k: String| k@)
}

/// Joins the fields with commas between them.
pub fn join_with_commas(parts: &Vec<String>) -> (r: String)
    ensures
        r@ == join_commas(texts(parts@)),
{
    let mut out = String::new();
    let mut i: usize = 0;
    while i < parts.len()
        invariant
            i <= parts@.len(),
            out@ == join_commas(texts(parts@.subrange(0, i as int))),
        decreases parts@.len() - i,
    {
        let ghost m = parts@.subrange(0, i + 1).map_values(|k: String| k@);
        assert(m.drop_last() == parts@.subrange(0, i as int).map_values(|k: String| k@));
        if i > 0 {
            out.append(",");
        }
        out.append(parts[i].as_str());
        proof { reveal_strlit(","); }
        i = i + 1;
    }
    assert(parts@.subrange(0, parts@.len() as int) == parts@);
    out
}

/// Removes a zero fraction from a number's text.
pub fn plain_number_text(t: &str) -> (r: String)
    ensures
        r@ == plain_number(t@),
{
    let n = t.unicode_len();
    if n >= 2 && t.get_char(n - 2) == '.' && t.get_char(n - 1) == '0' {
        t.substring_char(0, n - 2).to_string()
    } else {
        t.to_string()
    }
}

} // verus!
