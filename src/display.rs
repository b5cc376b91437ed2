use vstd::prelude::*;
use crate::model::{annos_view, Annotation, AnnotationView};
use crate::text::{lines_of, text_lines, texts_view};

verus! {

/// Whether no later annotation of `v` than the one at `i` has its key.
pub open spec fn is_latest(v: Seq<AnnotationView>, i: int) -> bool {
    forall|j: int| i < j < v.len() ==> #[trigger] v[j].key != v[i].key
}

/// For each key, its latest annotation among those at `i` and after, newest first.
pub open spec fn latest_from(v: Seq<AnnotationView>, i: int) -> Seq<AnnotationView>
    decreases v.len() - i,
{
    if i < 0 || i >= v.len() {
        Seq::empty()
    } else {
        let rest = latest_from(v, i + 1);
        if is_latest(v, i) { rest.push(v[i]) } else { rest }
    }
}

fn key_listed(r: &Vec<Annotation>, key: &str) -> (seen: bool)
    ensures
        seen == exists|b: int| 0 <= b < r@.len() && #[trigger] r@[b].key@ == key@,
{
    let mut a: usize = 0;
    while a < r.len()
        invariant
            a <= r@.len(),
            forall|b: int| 0 <= b < a ==> #[trigger] r@[b].key@ != key@,
        decreases r@.len() - a,
    {
        if crate::text::same_text(r[a].key.as_str(), key) {
            return true;
        }
        a = a + 1;
    }
    false
}

/// Some annotation of `s` has the key `key`.
#[verifier::opaque]
pub open spec fn key_among(s: Seq<AnnotationView>, key: Seq<char>) -> bool {
    exists|a: int| 0 <= a < s.len() && s[a].key == key
}

/// The current annotation of each key, newest first: older annotations of a
/// key are left out.
pub fn filter_duplicates(container: &Vec<Annotation>) -> (r: Vec<Annotation>)
    ensures
        annos_view(r@) == latest_from(annos_view(container@), 0),
{
    let ghost v = annos_view(container@);
    let mut r: Vec<Annotation> = Vec::new();
    let mut i: usize = container.len();
    proof {
        assert(annos_view(r@) =~= latest_from(v, i as int));
    }
    while i > 0
        invariant
            i <= container@.len(),
            v == annos_view(container@),
            annos_view(r@) == latest_from(v, i as int),
            forall|a: int| 0 <= a < r@.len() ==> key_among(v.skip(i as int), #[trigger] r@[a].key@),
            forall|j: int| i <= j < v.len() ==> key_among(annos_view(r@), #[trigger] v[j].key),
        decreases i,
    {
        let k = i - 1;
        let ghost rv = annos_view(r@);
        let seen = key_listed(&r, container[k].key.as_str());
        proof {
            assert(v[k as int] == container@[k as int]@);
            assert(is_latest(v, k as int) == !seen) by {
                reveal(key_among);
                if seen {
                    let b = choose|b: int| 0 <= b < r@.len() && #[trigger] r@[b].key@ == container@[k as int].key@;
                    assert(key_among(v.skip(i as int), r@[b].key@));
                    let j = choose|j: int| 0 <= j < v.skip(i as int).len() && v.skip(i as int)[j].key == r@[b].key@;
                    assert(v[i + j].key == v[k as int].key);
                } else {
                    assert forall|j: int| k < j < v.len() implies #[trigger] v[j].key != v[k as int].key by {
                        assert(key_among(rv, v[j].key));
                        let b = choose|b: int| 0 <= b < rv.len() && rv[b].key == v[j].key;
                        assert(rv[b].key == r@[b].key@);
                    }
                }
            }
        }
        let ghost before = r@;
        if !seen {
            r.push(container[k].duplicate());
            proof {
                assert(annos_view(r@) =~= annos_view(before).push(v[k as int]));
            }
        }
        proof {
            reveal(key_among);
            assert forall|a: int| 0 <= a < r@.len() implies key_among(v.skip(k as int), #[trigger] r@[a].key@) by {
                if a < before.len() {
                    assert(r@[a] == before[a]);
                    assert(key_among(v.skip(i as int), before[a].key@));
                    let j = choose|j: int| 0 <= j < v.skip(i as int).len() && v.skip(i as int)[j].key == before[a].key@;
                    assert(v.skip(k as int)[j + 1] == v.skip(i as int)[j]);
                } else {
                    assert(v.skip(k as int)[0].key == r@[a].key@);
                }
            }
            assert forall|j: int| k <= j < v.len() implies key_among(annos_view(r@), #[trigger] v[j].key) by {
                if j == k {
                    if seen {
                        let b = choose|b: int| 0 <= b < r@.len() && #[trigger] r@[b].key@ == container@[k as int].key@;
                        assert(annos_view(r@)[b].key == v[j].key);
                    } else {
                        assert(annos_view(r@)[before.len() as int].key == v[j].key);
                    }
                } else {
                    assert(key_among(rv, v[j].key));
                    let b = choose|b: int| 0 <= b < rv.len() && rv[b].key == v[j].key;
                    assert(annos_view(r@)[b] == rv[b]);
                }
            }
        }
        i = k;
    }
    r
}

/// Widths of the three display columns.
pub struct ColumnWidths {
    pub key: usize,
    pub value: usize,
    pub context: usize,
}

/// The largest length among `s`, 0 for none.
pub open spec fn max_len(s: Seq<Seq<char>>) -> nat
    decreases s.len(),
{
    if s.len() == 0 {
        0
    } else {
        let m = max_len(s.drop_last());
        if s.last().len() > m { s.last().len() } else { m }
    }
}

pub open spec fn keys_of(v: Seq<AnnotationView>) -> Seq<Seq<char>> {
    v.map_values(|a: AnnotationView| a.key)
}

pub open spec fn contexts_of(v: Seq<AnnotationView>) -> Seq<Seq<char>> {
    v.map_values(|a: AnnotationView| a.context)
}

/// Every line of every value, in order.
pub open spec fn value_lines_of(v: Seq<AnnotationView>) -> Seq<Seq<char>>
    decreases v.len(),
{
    if v.len() == 0 { Seq::empty() } else { value_lines_of(v.drop_last()) + lines_of(v.last().value) }
}

proof fn lemma_max_len_push(s: Seq<Seq<char>>, x: Seq<char>)
    ensures
        max_len(s.push(x)) == if x.len() > max_len(s) { x.len() } else { max_len(s) },
{
    assert(s.push(x).drop_last() =~= s);
}

proof fn lemma_max_len_bound(s: Seq<Seq<char>>)
    ensures
        max_len(s) == 0 || exists|i: int| 0 <= i < s.len() && #[trigger] s[i].len() == max_len(s),
    decreases s.len(),
{
    if s.len() > 0 {
        lemma_max_len_bound(s.drop_last());
        if max_len(s.drop_last()) > 0 && s.last().len() <= max_len(s.drop_last()) {
            let i = choose|i: int| 0 <= i < s.drop_last().len() && #[trigger] s.drop_last()[i].len() == max_len(s.drop_last());
            assert(s[i] == s.drop_last()[i]);
        }
    }
}

fn longest_value_line(value: &str, so_far: usize) -> (r: usize)
    ensures
        r == (if max_len(lines_of(value@)) > so_far { max_len(lines_of(value@)) } else { so_far as nat }),
{
    let lines = text_lines(value);
    let ghost ls = lines_of(value@);
    let mut best = so_far;
    let mut m: usize = 0;
    let mut i: usize = 0;
    proof {
        assert(ls.take(0) =~= Seq::<Seq<char>>::empty());
    }
    while i < lines.len()
        invariant
            i <= lines@.len(),
            texts_view(lines@) == ls,
            m == max_len(ls.take(i as int)),
            best == (if m > so_far { m } else { so_far }),
        decreases lines@.len() - i,
    {
        let n = lines[i].as_str().unicode_len();
        proof {
            assert(ls[i as int] == lines@[i as int]@);
            assert(ls.take(i + 1) =~= ls.take(i as int).push(ls[i as int]));
            lemma_max_len_push(ls.take(i as int), ls[i as int]);
        }
        if n > m {
            m = n;
        }
        if n > best {
            best = n;
        }
        i = i + 1;
    }
    proof {
        assert(ls.take(i as int) =~= ls);
    }
    best
}

/// The widest key, value line and context of `container`, each plus `padding`.
pub fn determine_column_widths(container: &Vec<Annotation>, padding: usize) -> (r: ColumnWidths)
    requires
        max_len(keys_of(annos_view(container@))) + padding <= usize::MAX,
        max_len(value_lines_of(annos_view(container@))) + padding <= usize::MAX,
        max_len(contexts_of(annos_view(container@))) + padding <= usize::MAX,
    ensures
        r.key == max_len(keys_of(annos_view(container@))) + padding,
        r.value == max_len(value_lines_of(annos_view(container@))) + padding,
        r.context == max_len(contexts_of(annos_view(container@))) + padding,
{
    let ghost v = annos_view(container@);
    let mut key: usize = 0;
    let mut value: usize = 0;
    let mut context: usize = 0;
    let mut i: usize = 0;
    proof {
        assert(keys_of(v.take(0)) =~= Seq::<Seq<char>>::empty());
        assert(contexts_of(v.take(0)) =~= Seq::<Seq<char>>::empty());
        assert(v.take(0) =~= Seq::<AnnotationView>::empty());
    }
    while i < container.len()
        invariant
            i <= container@.len(),
            v == annos_view(container@),
            key == max_len(keys_of(v.take(i as int))),
            value == max_len(value_lines_of(v.take(i as int))),
            context == max_len(contexts_of(v.take(i as int))),
        decreases container@.len() - i,
    {
        let a = &container[i];
        proof {
            assert(v[i as int] == a@);
            assert(v.take(i + 1) =~= v.take(i as int).push(a@));
            assert(keys_of(v.take(i + 1)) =~= keys_of(v.take(i as int)).push(a.key@));
            assert(contexts_of(v.take(i + 1)) =~= contexts_of(v.take(i as int)).push(a.context@));
            lemma_max_len_push(keys_of(v.take(i as int)), a.key@);
            lemma_max_len_push(contexts_of(v.take(i as int)), a.context@);
            assert(v.take(i + 1).drop_last() =~= v.take(i as int));
            assert(value_lines_of(v.take(i + 1)) == value_lines_of(v.take(i as int)) + lines_of(a.value@));
            lemma_max_len_concat(value_lines_of(v.take(i as int)), lines_of(a.value@));
        }
        let k = a.key.as_str().unicode_len();
        if k > key {
            key = k;
        }
        let c = a.context.as_str().unicode_len();
        if c > context {
            context = c;
        }
        value = longest_value_line(a.value.as_str(), value);
        i = i + 1;
    }
    proof {
        assert(v.take(i as int) =~= v);
    }
    ColumnWidths { key: key + padding, value: value + padding, context: context + padding }
}

proof fn lemma_max_len_concat(a: Seq<Seq<char>>, b: Seq<Seq<char>>)
    ensures
        max_len(a + b) == if max_len(b) > max_len(a) { max_len(b) } else { max_len(a) },
    decreases b.len(),
{
    if b.len() == 0 {
        assert(a + b =~= a);
    } else {
        assert((a + b).drop_last() =~= a + b.drop_last());
        lemma_max_len_concat(a, b.drop_last());
    }
}

} // verus!
