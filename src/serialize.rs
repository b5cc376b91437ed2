use vstd::prelude::*;
use crate::model::{
    annos_view, files_view, lemma_files_view_at, names_unique, AnnotationView, Annotation, Annovate,
    FileEntry,
};
use crate::text::{lines_of, text_lines, texts_view};

verus! {

/// The lines of one annotation: its key, one line per line of its value, its context.
pub open spec fn anno_lines(a: AnnotationView) -> Seq<Seq<char>> {
    seq![seq!['>'] + a.key] + lines_of(a.value).map_values(|l: Seq<char>| seq!['='] + l)
        + seq![seq!['<'] + a.context]
}

/// The lines of a list of annotations, in its order.
pub open spec fn list_lines(v: Seq<AnnotationView>) -> Seq<Seq<char>>
    decreases v.len(),
{
    if v.len() == 0 {
        Seq::empty()
    } else {
        list_lines(v.drop_last()) + anno_lines(v.last())
    }
}

/// The block of one registered file: its header, then its annotations.
pub open spec fn file_lines(name: Seq<char>, v: Seq<AnnotationView>) -> Seq<Seq<char>> {
    seq![seq!['@'] + name] + list_lines(v)
}

/// The blocks of the files named in `order`, in that order.
pub open spec fn files_lines(
    order: Seq<Seq<char>>,
    files: Map<Seq<char>, Seq<AnnotationView>>,
) -> Seq<Seq<char>>
    decreases order.len(),
{
    if order.len() == 0 {
        Seq::empty()
    } else {
        files_lines(order.drop_last(), files) + file_lines(order.last(), files[order.last()])
    }
}

/// `order` names each registered file once, the files without annotations first.
pub open spec fn is_listing(order: Seq<Seq<char>>, files: Map<Seq<char>, Seq<AnnotationView>>) -> bool {
    &&& order.no_duplicates()
    &&& forall|k: Seq<char>| files.contains_key(k) <==> order.contains(k)
    &&& forall|i: int, j: int|
        0 <= i < j < order.len() && #[trigger] files[order[j]].len() == 0 ==> #[trigger] files[order[i]].len() == 0
}

/// The whole file: the directory's annotations, then the file blocks in `order`.
pub open spec fn store_lines(
    dir: Seq<AnnotationView>,
    files: Map<Seq<char>, Seq<AnnotationView>>,
    order: Seq<Seq<char>>,
) -> Seq<Seq<char>> {
    list_lines(dir) + files_lines(order, files)
}

/// A string made of `lead` followed by `s`.
fn led(lead: &str, s: &str) -> (r: String)
    ensures
        r@ == lead@ + s@,
{
    let mut r = String::from_str(lead);
    r.append(s);
    r
}

fn write_annotation(out: &mut Vec<String>, a: &Annotation)
    ensures
        texts_view(final(out)@) == texts_view(old(out)@) + anno_lines(a@),
{
    proof {
        reveal_strlit(">");
        reveal_strlit("=");
        reveal_strlit("<");
    }
    let ghost start = texts_view(out@);
    let head = led(">", a.key.as_str());
    proof {
        assert(">"@ =~= seq!['>']);
        assert(head@ =~= seq!['>'] + a.key@);
    }
    out.push(head);
    let lines = text_lines(a.value.as_str());
    let ghost vl = lines_of(a.value@).map_values(|l: Seq<char>| seq!['='] + l);
    proof {
        assert(texts_view(out@) =~= start + seq![seq!['>'] + a.key@]);
        assert(vl.take(0) =~= Seq::<Seq<char>>::empty());
        assert(texts_view(out@) =~= start + seq![seq!['>'] + a.key@] + vl.take(0));
    }
    let mut i: usize = 0;
    while i < lines.len()
        invariant
            i <= lines@.len(),
            texts_view(lines@) == lines_of(a.value@),
            vl == lines_of(a.value@).map_values(|l: Seq<char>| seq!['='] + l),
            texts_view(out@) == start + seq![seq!['>'] + a.key@] + vl.take(i as int),
        decreases lines@.len() - i,
    {
        let ghost before = texts_view(out@);
        let line = led("=", lines[i].as_str());
        proof {
            reveal_strlit("=");
            assert("="@ =~= seq!['=']);
            assert(line@ =~= seq!['='] + lines@[i as int]@);
        }
        out.push(line);
        proof {
            assert(texts_view(lines@)[i as int] == lines@[i as int]@);
            assert(vl.take(i + 1) =~= vl.take(i as int).push(vl[i as int]));
            assert(texts_view(out@) =~= before.push(seq!['='] + lines@[i as int]@));
        }
        i = i + 1;
    }
    proof {
        assert(vl.take(i as int) =~= vl);
    }
    let ghost before = texts_view(out@);
    let tail = led("<", a.context.as_str());
    proof {
        assert("<"@ =~= seq!['<']);
        assert(tail@ =~= seq!['<'] + a.context@);
    }
    out.push(tail);
    proof {
        assert(texts_view(out@) =~= before.push(seq!['<'] + a.context@));
        assert(texts_view(out@) =~= start + anno_lines(a@));
    }
}

fn write_annotations(out: &mut Vec<String>, list: &Vec<Annotation>)
    ensures
        texts_view(final(out)@) == texts_view(old(out)@) + list_lines(annos_view(list@)),
{
    let ghost start = texts_view(out@);
    let ghost v = annos_view(list@);
    let mut i: usize = 0;
    proof {
        assert(v.take(0) =~= Seq::<AnnotationView>::empty());
        assert(texts_view(out@) =~= start + list_lines(v.take(0)));
    }
    while i < list.len()
        invariant
            i <= list@.len(),
            v == annos_view(list@),
            texts_view(out@) == start + list_lines(v.take(i as int)),
        decreases list@.len() - i,
    {
        write_annotation(out, &list[i]);
        proof {
            assert(v.take(i + 1).drop_last() =~= v.take(i as int));
            assert(v.take(i + 1).last() == list@[i as int]@);
            assert(texts_view(out@) =~= start + list_lines(v.take(i + 1)));
        }
        i = i + 1;
    }
    proof {
        assert(v.take(i as int) =~= v);
    }
}

pub proof fn lemma_files_lines_append(
    a: Seq<Seq<char>>,
    b: Seq<Seq<char>>,
    files: Map<Seq<char>, Seq<AnnotationView>>,
)
    ensures
        files_lines(a + b, files) == files_lines(a, files) + files_lines(b, files),
    decreases b.len(),
{
    if b.len() == 0 {
        assert(a + b =~= a);
        assert(files_lines(a, files) + Seq::<Seq<char>>::empty() =~= files_lines(a, files));
    } else {
        assert((a + b).drop_last() =~= a + b.drop_last());
        assert((a + b).last() == b.last());
        lemma_files_lines_append(a, b.drop_last(), files);
        assert(files_lines(a + b, files) =~= files_lines(a, files) + files_lines(b, files));
    }
}

/// The names of the entries at `idx`.
pub open spec fn names_at(e: Seq<FileEntry>, idx: Seq<int>) -> Seq<Seq<char>> {
    idx.map_values(|j: int| e[j].name@)
}

fn write_file(out: &mut Vec<String>, entry: &FileEntry)
    ensures
        texts_view(final(out)@) == texts_view(old(out)@) + file_lines(entry.name@, annos_view(entry.annos@)),
{
    let ghost start = texts_view(out@);
    let head = led("@", entry.name.as_str());
    proof {
        reveal_strlit("@");
        assert("@"@ =~= seq!['@']);
        assert(head@ =~= seq!['@'] + entry.name@);
    }
    out.push(head);
    proof {
        assert(texts_view(out@) =~= start + seq![seq!['@'] + entry.name@]);
    }
    write_annotations(out, &entry.annos);
    proof {
        assert(texts_view(out@) =~= start + file_lines(entry.name@, annos_view(entry.annos@)));
    }
}

impl Annovate {
    /// Writes the blocks of the files whose list is empty (`empty`) or not, in
    /// stored order; gives the positions written.
    fn write_files_where(&self, out: &mut Vec<String>, empty: bool) -> (idx: Ghost<Seq<int>>)
        requires
            names_unique(self.files@),
        ensures
            texts_view(final(out)@) == texts_view(old(out)@) + files_lines(
                names_at(self.files@, idx@),
                files_view(self.files@),
            ),
            forall|a: int| 0 <= a < idx@.len() ==> 0 <= #[trigger] idx@[a] < self.files@.len()
                && (self.files@[idx@[a]].annos@.len() == 0) == empty,
            forall|a: int, b: int| 0 <= a < b < idx@.len() ==> #[trigger] idx@[a] < #[trigger] idx@[b],
            forall|j: int| 0 <= j < self.files@.len() && (#[trigger] self.files@[j].annos@.len() == 0) == empty
                ==> idx@.contains(j),
    {
        let ghost e = self.files@;
        let ghost start = texts_view(out@);
        let ghost mut idx: Seq<int> = Seq::empty();
        let mut i: usize = 0;
        proof {
            assert(names_at(e, idx) =~= Seq::<Seq<char>>::empty());
            assert(texts_view(out@) =~= start + files_lines(names_at(e, idx), files_view(e)));
        }
        while i < self.files.len()
            invariant
                e == self.files@,
                names_unique(e),
                i <= e.len(),
                texts_view(out@) == start + files_lines(names_at(e, idx), files_view(e)),
                forall|a: int| 0 <= a < idx.len() ==> 0 <= #[trigger] idx[a] < i
                    && (e[idx[a]].annos@.len() == 0) == empty,
                forall|a: int, b: int| 0 <= a < b < idx.len() ==> #[trigger] idx[a] < #[trigger] idx[b],
                forall|j: int| 0 <= j < i && (#[trigger] e[j].annos@.len() == 0) == empty ==> idx.contains(j),
            decreases e.len() - i,
        {
            if (self.files[i].annos.len() == 0) == empty {
                write_file(out, &self.files[i]);
                proof {
                    lemma_files_view_at(e, i as int);
                    let old_idx = idx;
                    idx = idx.push(i as int);
                    assert(names_at(e, idx).drop_last() =~= names_at(e, old_idx));
                    assert(names_at(e, idx).last() == e[i as int].name@);
                    assert(texts_view(out@) =~= start + files_lines(names_at(e, idx), files_view(e)));
                    assert forall|j: int| 0 <= j < i + 1 && (#[trigger] e[j].annos@.len() == 0) == empty implies idx.contains(j) by {
                        if j == i {
                            assert(idx[idx.len() - 1] == j);
                        } else {
                            assert(old_idx.contains(j));
                            let a = choose|a: int| 0 <= a < old_idx.len() && old_idx[a] == j;
                            assert(idx[a] == j);
                        }
                    }
                }
            }
            i = i + 1;
        }
        Ghost(idx)
    }

    /// The lines of the whole file: the directory's annotations, then one block
    /// per registered file, those without annotations first.
    pub fn to_lines(&self) -> (r: Vec<String>)
        requires
            self.wf(),
        ensures
            exists|order: Seq<Seq<char>>|
                is_listing(order, self@.files) && texts_view(r@) == store_lines(self@.dir, self@.files, order),
    {
        proof {
            self.lemma_view();
        }
        let ghost e = self.files@;
        let ghost files = files_view(e);
        let mut out: Vec<String> = Vec::new();
        write_annotations(&mut out, &self.dir);
        let first = self.write_files_where(&mut out, true);
        let second = self.write_files_where(&mut out, false);
        proof {
            let idx = first@ + second@;
            let order = names_at(e, idx);
            assert(order =~= names_at(e, first@) + names_at(e, second@));
            lemma_files_lines_append(names_at(e, first@), names_at(e, second@), files);
            assert(texts_view(out@) =~= store_lines(self@.dir, self@.files, order));
            assert forall|a: int| 0 <= a < idx.len() implies 0 <= #[trigger] idx[a] < e.len()
                && files[order[a]] == annos_view(e[idx[a]].annos@)
                && (e[idx[a]].annos@.len() == 0) == (a < first@.len()) by {
                if a < first@.len() {
                    assert(idx[a] == first@[a]);
                } else {
                    assert(idx[a] == second@[a - first@.len()]);
                }
                lemma_files_view_at(e, idx[a]);
            }
            assert forall|a: int, b: int| 0 <= a < b < idx.len() implies #[trigger] idx[a] != #[trigger] idx[b] by {
                if b < first@.len() {
                    assert(first@[a] < first@[b]);
                } else if a >= first@.len() {
                    assert(second@[a - first@.len()] < second@[b - first@.len()]);
                }
            }
            assert(order.no_duplicates()) by {
                assert forall|a: int, b: int| 0 <= a < order.len() && 0 <= b < order.len() && a != b implies order[a] != order[b] by {
                    if a < b {
                        assert(idx[a] != idx[b]);
                    } else {
                        assert(idx[b] != idx[a]);
                    }
                }
            }
            assert forall|k: Seq<char>| files.contains_key(k) <==> order.contains(k) by {
                if files.contains_key(k) {
                    let j = choose|j: int| 0 <= j < e.len() && #[trigger] e[j].name@ == k;
                    if e[j].annos@.len() == 0 {
                        let a = choose|a: int| 0 <= a < first@.len() && first@[a] == j;
                        assert(order[a] == k);
                    } else {
                        let a = choose|a: int| 0 <= a < second@.len() && second@[a] == j;
                        assert(idx[first@.len() + a] == j);
                        assert(order[first@.len() + a] == k);
                    }
                }
                if order.contains(k) {
                    let a = choose|a: int| 0 <= a < order.len() && order[a] == k;
                    assert(e[idx[a]].name@ == k);
                }
            }
            assert forall|a: int, b: int| 0 <= a < b < order.len() && #[trigger] files[order[b]].len() == 0
                implies #[trigger] files[order[a]].len() == 0 by {
                assert(annos_view(e[idx[b]].annos@).len() == e[idx[b]].annos@.len());
                assert(annos_view(e[idx[a]].annos@).len() == e[idx[a]].annos@.len());
            }
            assert(is_listing(order, self@.files));
        }
        out
    }
}

} // verus!
