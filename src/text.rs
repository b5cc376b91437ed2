use vstd::prelude::*;

verus! {

/// Unicode `White_Space`, the set that `char::is_whitespace` tests.
pub open spec fn is_space(c: char) -> bool {
    let n = c as u32;
    (0x9 <= n && n <= 0xd) || n == 0x20 || n == 0x85 || n == 0xa0 || n == 0x1680
        || (0x2000 <= n && n <= 0x200a) || n == 0x2028 || n == 0x2029 || n == 0x202f
        || n == 0x205f || n == 0x3000
}

/// `s` without its trailing whitespace.
pub open spec fn trim_end(s: Seq<char>) -> Seq<char>
    decreases s.len(),
{
    if s.len() > 0 && is_space(s.last()) {
        trim_end(s.drop_last())
    } else {
        s
    }
}

pub fn space(c: char) -> (r: bool)
    ensures
        r == is_space(c),
{
    let n = c as u32;
    (0x9 <= n && n <= 0xd) || n == 0x20 || n == 0x85 || n == 0xa0 || n == 0x1680
        || (0x2000 <= n && n <= 0x200a) || n == 0x2028 || n == 0x2029 || n == 0x202f
        || n == 0x205f || n == 0x3000
}

/// `s` without its trailing whitespace, as a slice of `s`.
pub fn trimmed<'a>(s: &'a str) -> (r: &'a str)
    ensures
        r@ == trim_end(s@),
{
    let mut end: usize = s.unicode_len();
    proof {
        assert(s@.subrange(0, end as int) =~= s@);
    }
    while end > 0 && space(s.get_char(end - 1))
        invariant
            end <= s@.len(),
            trim_end(s@.subrange(0, end as int)) == trim_end(s@),
        decreases end,
    {
        proof {
            assert(s@.subrange(0, end as int).drop_last() =~= s@.subrange(0, end - 1));
        }
        end = end - 1;
    }
    s.substring_char(0, end)
}

/// Whether two strings hold the same characters.
pub fn same_text(a: &str, b: &str) -> (r: bool)
    ensures
        r == (a@ == b@),
{
    let n = a.unicode_len();
    if n != b.unicode_len() {
        return false;
    }
    let mut i: usize = 0;
    while i < n
        invariant
            n == a@.len(),
            n == b@.len(),
            i <= n,
            a@.subrange(0, i as int) == b@.subrange(0, i as int),
        decreases n - i,
    {
        if a.get_char(i) != b.get_char(i) {
            return false;
        }
        proof {
            assert(a@.subrange(0, i + 1) =~= a@.subrange(0, i as int).push(a@[i as int]));
            assert(b@.subrange(0, i + 1) =~= b@.subrange(0, i as int).push(b@[i as int]));
        }
        i = i + 1;
    }
    proof {
        assert(a@ =~= a@.subrange(0, n as int));
        assert(b@ =~= b@.subrange(0, n as int));
    }
    true
}

/// The pieces of `t` between newlines, in order; one empty piece for an empty `t`.
pub open spec fn split_text(t: Seq<char>) -> Seq<Seq<char>>
    decreases t.len(),
{
    if t.len() == 0 {
        seq![Seq::empty()]
    } else {
        let s = split_text(t.drop_last());
        if t.last() == '\n' {
            s.push(Seq::empty())
        } else {
            s.update(s.len() - 1, s.last().push(t.last()))
        }
    }
}

/// A line without one carriage return at its end.
pub open spec fn strip_cr(l: Seq<char>) -> Seq<char> {
    if l.len() > 0 && l.last() == '\r' { l.drop_last() } else { l }
}

/// The lines of `t` as `str::lines` gives them: split at each newline, one
/// carriage return taken off the end of each, no empty line after a final newline.
pub open spec fn lines_of(t: Seq<char>) -> Seq<Seq<char>> {
    let s = split_text(t);
    let s2 = if s.last().len() == 0 { s.drop_last() } else { s };
    s2.map_values(|l: Seq<char>| strip_cr(l))
}

/// The strings of a list as character sequences.
pub open spec fn texts_view(v: Seq<String>) -> Seq<Seq<char>> {
    v.map_values(|l: String| l@)
}

pub proof fn lemma_split_nonempty(t: Seq<char>)
    ensures
        split_text(t).len() >= 1,
    decreases t.len(),
{
    if t.len() > 0 {
        lemma_split_nonempty(t.drop_last());
    }
}

fn without_cr(s: &str) -> (r: String)
    ensures
        r@ == strip_cr(s@),
{
    let n = s.unicode_len();
    if n > 0 && s.get_char(n - 1) == '\r' {
        proof {
            assert(s@.subrange(0, n - 1) =~= s@.drop_last());
        }
        s.substring_char(0, n - 1).to_owned()
    } else {
        s.to_owned()
    }
}

/// The lines of `t`, as `str::lines` splits it.
pub fn text_lines(t: &str) -> (r: Vec<String>)
    ensures
        texts_view(r@) == lines_of(t@),
{
    let n = t.unicode_len();
    let mut r: Vec<String> = Vec::new();
    let mut start: usize = 0;
    let mut k: usize = 0;
    let ghost mut raw: Seq<Seq<char>> = Seq::empty();
    proof {
        assert(t@.take(0) =~= Seq::<char>::empty());
        assert(t@.subrange(0, 0) =~= Seq::<char>::empty());
        assert(split_text(Seq::<char>::empty()) =~= raw.push(t@.subrange(0, 0)));
    }
    while k < n
        invariant
            n == t@.len(),
            start <= k <= n,
            split_text(t@.take(k as int)) == raw.push(t@.subrange(start as int, k as int)),
            texts_view(r@) == raw.map_values(|l: Seq<char>| strip_cr(l)),
        decreases n - k,
    {
        let c = t.get_char(k);
        let ghost piece = t@.subrange(start as int, k as int);
        proof {
            assert(t@.take(k + 1).drop_last() =~= t@.take(k as int));
            assert(t@.take(k + 1).last() == c);
        }
        if c == '\n' {
            let line = without_cr(t.substring_char(start, k));
            let ghost old_r = r@;
            r.push(line);
            proof {
                assert(texts_view(r@) =~= texts_view(old_r).push(line@));
                raw = raw.push(piece);
                assert(texts_view(r@) =~= raw.map_values(|l: Seq<char>| strip_cr(l)));
                assert(t@.subrange(k + 1, k + 1) =~= Seq::<char>::empty());
            }
            start = k + 1;
        } else {
            proof {
                assert(t@.subrange(start as int, k + 1) =~= piece.push(c));
                assert(raw.push(piece).update(raw.len() as int, piece.push(c)) =~= raw.push(piece.push(c)));
            }
        }
        k = k + 1;
    }
    proof {
        assert(t@.take(n as int) =~= t@);
    }
    if start < n {
        let line = without_cr(t.substring_char(start, n));
        let ghost old_r = r@;
        r.push(line);
        proof {
            assert(texts_view(r@) =~= texts_view(old_r).push(line@));
            assert(raw.push(t@.subrange(start as int, n as int)).map_values(|l: Seq<char>| strip_cr(l)) =~= raw.map_values(|l: Seq<char>| strip_cr(l)).push(strip_cr(t@.subrange(start as int, n as int))));
        }
    } else {
        proof {
            assert(raw.push(t@.subrange(start as int, n as int)).drop_last() =~= raw);
        }
    }
    r
}

} // verus!
