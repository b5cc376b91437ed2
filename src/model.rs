use vstd::prelude::*;
use crate::text::same_text;

verus! {

/// A key, a value that may span several lines, and a note on where it came from.
#[derive(Debug, Clone, PartialEq, Eq)]
pub struct Annotation {
    pub key: String,
    pub value: String,
    pub context: String,
}

/// What an annotation holds, as character sequences.
pub struct AnnotationView {
    pub key: Seq<char>,
    pub value: Seq<char>,
    pub context: Seq<char>,
}

impl View for Annotation {
    type V = AnnotationView;

    open spec fn view(&self) -> AnnotationView {
        AnnotationView { key: self.key@, value: self.value@, context: self.context@ }
    }
}

impl Annotation {
    pub fn new(key: String, value: String, context: String) -> (r: Annotation)
        ensures
            r@ == (AnnotationView { key: key@, value: value@, context: context@ }),
    {
        Annotation { key, value, context }
    }

    pub fn duplicate(&self) -> (r: Annotation)
        ensures
            r@ == self@,
    {
        Annotation { key: self.key.clone(), value: self.value.clone(), context: self.context.clone() }
    }
}

/// The annotations of a list, in order.
pub open spec fn annos_view(v: Seq<Annotation>) -> Seq<AnnotationView> {
    v.map_values(|a: Annotation| a@)
}

/// The list without the annotations whose key is `key`, the others in their order.
pub open spec fn without_key(v: Seq<AnnotationView>, key: Seq<char>) -> Seq<AnnotationView> {
    v.filter(|a: AnnotationView| a.key != key)
}

/// Whether some annotation of the list has the key `key`.
pub open spec fn has_key(v: Seq<AnnotationView>, key: Seq<char>) -> bool {
    exists|i: int| 0 <= i < v.len() && #[trigger] v[i].key == key
}

/// What a whole annotation file holds: the directory's list and one list per
/// registered file name.
pub struct StoreView {
    pub dir: Seq<AnnotationView>,
    pub files: Map<Seq<char>, Seq<AnnotationView>>,
}

/// The error of std's file operations, carried through unread.
#[verifier::external_type_specification]
#[verifier::external_body]
pub struct ExIoError(std::io::Error);

/// Why a file could not be loaded or saved.
#[derive(Debug)]
pub enum AnnoError {
    /// A line (1-based) whose leading character is out of place or unknown.
    ParseError(u64, char),
    IOError(std::io::Error),
}

/// The registered name of a file and its annotations.
pub struct FileEntry {
    pub name: String,
    pub annos: Vec<Annotation>,
}

/// One annotation file held in memory.
pub struct Annovate {
    pub(crate) dir: Vec<Annotation>,
    pub(crate) files: Vec<FileEntry>,
}

pub open spec fn names_unique(e: Seq<FileEntry>) -> bool {
    forall|i: int, j: int|
        0 <= i < e.len() && 0 <= j < e.len() && i != j ==> #[trigger] e[i].name@ != #[trigger] e[j].name@
}

pub open spec fn has_name(e: Seq<FileEntry>, k: Seq<char>) -> bool {
    exists|i: int| 0 <= i < e.len() && #[trigger] e[i].name@ == k
}

pub open spec fn entry_of(e: Seq<FileEntry>, k: Seq<char>) -> int {
    choose|i: int| 0 <= i < e.len() && #[trigger] e[i].name@ == k
}

pub open spec fn files_view(e: Seq<FileEntry>) -> Map<Seq<char>, Seq<AnnotationView>> {
    Map::new(|k: Seq<char>| has_name(e, k), |k: Seq<char>| annos_view(e[entry_of(e, k)].annos@))
}

pub proof fn lemma_files_view_at(e: Seq<FileEntry>, i: int)
    requires
        names_unique(e),
        0 <= i < e.len(),
    ensures
        files_view(e).contains_key(e[i].name@),
        files_view(e)[e[i].name@] == annos_view(e[i].annos@),
{
    assert(has_name(e, e[i].name@));
    let j = entry_of(e, e[i].name@);
    assert(e[j].name@ == e[i].name@);
}

pub proof fn lemma_files_view_update(e: Seq<FileEntry>, j: int, x: FileEntry)
    requires
        names_unique(e),
        0 <= j < e.len(),
        x.name@ == e[j].name@,
    ensures
        names_unique(e.update(j, x)),
        files_view(e.update(j, x)) == files_view(e).insert(x.name@, annos_view(x.annos@)),
{
    let e2 = e.update(j, x);
    assert(names_unique(e2)) by {
        assert forall|a: int, b: int| 0 <= a < e2.len() && 0 <= b < e2.len() && a != b implies #[trigger] e2[a].name@ != #[trigger] e2[b].name@ by {
            assert(e2[a].name@ == e[a].name@);
            assert(e2[b].name@ == e[b].name@);
        }
    }
    let m = files_view(e).insert(x.name@, annos_view(x.annos@));
    assert forall|k: Seq<char>| #[trigger] files_view(e2).contains_key(k) == m.contains_key(k) by {
        if has_name(e2, k) {
            let i = choose|i: int| 0 <= i < e2.len() && #[trigger] e2[i].name@ == k;
            assert(e[i].name@ == k);
            assert(has_name(e, k));
        }
        if has_name(e, k) {
            let i = choose|i: int| 0 <= i < e.len() && #[trigger] e[i].name@ == k;
            assert(e2[i].name@ == k);
        }
        if k == x.name@ {
            assert(e2[j].name@ == k);
        }
    }
    assert forall|k: Seq<char>| #[trigger] files_view(e2).contains_key(k) implies files_view(e2)[k] == m[k] by {
        let i = choose|i: int| 0 <= i < e2.len() && #[trigger] e2[i].name@ == k;
        lemma_files_view_at(e2, i);
        if i != j {
            lemma_files_view_at(e, i);
        }
    }
    assert(files_view(e2) =~= m);
}

pub proof fn lemma_files_view_remove(e: Seq<FileEntry>, j: int)
    requires
        names_unique(e),
        0 <= j < e.len(),
    ensures
        names_unique(e.remove(j)),
        files_view(e.remove(j)) == files_view(e).remove(e[j].name@),
{
    let e2 = e.remove(j);
    assert(forall|a: int| 0 <= a < e2.len() ==> #[trigger] e2[a] == e[if a < j { a } else { a + 1 }]);
    assert(names_unique(e2)) by {
        assert forall|a: int, b: int| 0 <= a < e2.len() && 0 <= b < e2.len() && a != b implies #[trigger] e2[a].name@ != #[trigger] e2[b].name@ by {
            assert(e2[a] == e[if a < j { a } else { a + 1 }]);
            assert(e2[b] == e[if b < j { b } else { b + 1 }]);
        }
    }
    let m = files_view(e).remove(e[j].name@);
    assert forall|k: Seq<char>| #[trigger] files_view(e2).contains_key(k) == m.contains_key(k) by {
        if has_name(e2, k) {
            let i = choose|i: int| 0 <= i < e2.len() && #[trigger] e2[i].name@ == k;
            let oi = if i < j { i } else { i + 1 };
            assert(e[oi].name@ == k);
            assert(has_name(e, k));
        }
        if has_name(e, k) && k != e[j].name@ {
            let i = choose|i: int| 0 <= i < e.len() && #[trigger] e[i].name@ == k;
            let ni = if i < j { i } else { i - 1 };
            assert(e2[ni].name@ == k);
        }
    }
    assert forall|k: Seq<char>| #[trigger] files_view(e2).contains_key(k) implies files_view(e2)[k] == m[k] by {
        let i = choose|i: int| 0 <= i < e2.len() && #[trigger] e2[i].name@ == k;
        let oi = if i < j { i } else { i + 1 };
        lemma_files_view_at(e2, i);
        lemma_files_view_at(e, oi);
    }
    assert(files_view(e2) =~= m);
}

pub proof fn lemma_files_view_push(e: Seq<FileEntry>, x: FileEntry)
    requires
        names_unique(e),
        !has_name(e, x.name@),
    ensures
        names_unique(e.push(x)),
        files_view(e.push(x)) == files_view(e).insert(x.name@, annos_view(x.annos@)),
{
    let e2 = e.push(x);
    assert(names_unique(e2)) by {
        assert forall|a: int, b: int| 0 <= a < e2.len() && 0 <= b < e2.len() && a != b implies #[trigger] e2[a].name@ != #[trigger] e2[b].name@ by {
            if a < e.len() && b < e.len() {
                assert(e2[a] == e[a]);
                assert(e2[b] == e[b]);
            } else if a < e.len() {
                assert(e2[a] == e[a]);
            } else {
                assert(e2[b] == e[b]);
            }
        }
    }
    let m = files_view(e).insert(x.name@, annos_view(x.annos@));
    assert forall|k: Seq<char>| #[trigger] files_view(e2).contains_key(k) == m.contains_key(k) by {
        if has_name(e2, k) {
            let i = choose|i: int| 0 <= i < e2.len() && #[trigger] e2[i].name@ == k;
            if i < e.len() {
                assert(e[i].name@ == k);
            }
        }
        if has_name(e, k) {
            let i = choose|i: int| 0 <= i < e.len() && #[trigger] e[i].name@ == k;
            assert(e2[i].name@ == k);
        }
        assert(e2[e.len() as int].name@ == x.name@);
    }
    assert forall|k: Seq<char>| #[trigger] files_view(e2).contains_key(k) implies files_view(e2)[k] == m[k] by {
        let i = choose|i: int| 0 <= i < e2.len() && #[trigger] e2[i].name@ == k;
        lemma_files_view_at(e2, i);
        if i < e.len() {
            assert(e2[i] == e[i]);
            lemma_files_view_at(e, i);
        }
    }
    assert(files_view(e2) =~= m);
}

/// Takes out of `v` every annotation whose key is `key`; tells whether there was one.
fn drop_key(v: &mut Vec<Annotation>, key: &str) -> (r: bool)
    ensures
        annos_view(final(v)@) == without_key(annos_view(old(v)@), key@),
        r == has_key(annos_view(old(v)@), key@),
{
    let ghost orig = annos_view(v@);
    let mut i: usize = 0;
    let ghost mut j: int = 0;
    let mut removed = false;
    proof {
        assert(orig.take(0) =~= Seq::<AnnotationView>::empty());
        reveal(Seq::filter);
        assert(annos_view(v@) =~= without_key(orig.take(j), key@) + orig.skip(j));
    }
    while i < v.len()
        invariant
            0 <= j <= orig.len(),
            annos_view(v@) == without_key(orig.take(j), key@) + orig.skip(j),
            i == without_key(orig.take(j), key@).len(),
            removed == has_key(orig.take(j), key@),
        decreases orig.len() - j,
    {
        let ghost before = v@;
        proof {
            assert(annos_view(v@)[i as int] == orig[j]);
            reveal(Seq::filter);
            assert(orig.take(j + 1).drop_last() =~= orig.take(j));
            assert(orig.take(j + 1).last() == orig[j]);
        }
        let hit = same_text(v[i].key.as_str(), key);
        proof {
            assert(has_key(orig.take(j + 1), key@) == (has_key(orig.take(j), key@) || orig[j].key == key@)) by {
                if orig[j].key == key@ {
                    assert(orig.take(j + 1)[j] == orig[j]);
                }
                if has_key(orig.take(j), key@) {
                    let w = choose|w: int| 0 <= w < orig.take(j).len() && #[trigger] orig.take(j)[w].key == key@;
                    assert(orig.take(j + 1)[w] == orig.take(j)[w]);
                }
                if has_key(orig.take(j + 1), key@) {
                    let w = choose|w: int| 0 <= w < orig.take(j + 1).len() && #[trigger] orig.take(j + 1)[w].key == key@;
                    if w < j {
                        assert(orig.take(j)[w] == orig.take(j + 1)[w]);
                    }
                }
            }
        }
        if hit {
            v.remove(i);
            removed = true;
            proof {
                assert(annos_view(v@) =~= annos_view(before).remove(i as int));
                assert(annos_view(v@) =~= without_key(orig.take(j + 1), key@) + orig.skip(j + 1));
            }
        } else {
            i = i + 1;
            proof {
                assert(annos_view(v@) =~= without_key(orig.take(j + 1), key@) + orig.skip(j + 1));
            }
        }
        proof {
            j = j + 1;
        }
    }
    proof {
        assert(orig.take(j) =~= orig);
        assert(orig.skip(j) =~= Seq::<AnnotationView>::empty());
        assert(annos_view(v@) =~= without_key(orig, key@));
    }
    removed
}

impl View for Annovate {
    type V = StoreView;

    closed spec fn view(&self) -> StoreView {
        StoreView { dir: annos_view(self.dir@), files: files_view(self.files@) }
    }
}

impl Annovate {
    /// The stored form is consistent: no file name is registered twice.
    pub closed spec fn wf(&self) -> bool {
        names_unique(self.files@)
    }

    /// A store with no annotations and no registered file.
    pub fn empty() -> (r: Annovate)
        ensures
            r.wf(),
            r@.dir == Seq::<AnnotationView>::empty(),
            r@.files == Map::<Seq<char>, Seq<AnnotationView>>::empty(),
    {
        let r = Annovate { dir: Vec::new(), files: Vec::new() };
        proof {
            assert(r@.files =~= Map::<Seq<char>, Seq<AnnotationView>>::empty());
            assert(r@.dir =~= Seq::<AnnotationView>::empty());
        }
        r
    }

    pub(crate) proof fn lemma_view(&self)
        ensures
            self@ == (StoreView { dir: annos_view(self.dir@), files: files_view(self.files@) }),
            self.wf() == names_unique(self.files@),
    {
    }

    /// Position of the entry registered as `name`.
    pub(crate) fn find_file(&self, name: &str) -> (r: Option<usize>)
        requires
            names_unique(self.files@),
        ensures
            match r {
                Some(i) => i < self.files@.len() && self.files@[i as int].name@ == name@,
                None => !has_name(self.files@, name@),
            },
            r.is_some() == files_view(self.files@).contains_key(name@),
    {
        let mut i: usize = 0;
        while i < self.files.len()
            invariant
                i <= self.files@.len(),
                forall|j: int| 0 <= j < i ==> #[trigger] self.files@[j].name@ != name@,
            decreases self.files@.len() - i,
        {
            if same_text(self.files[i].name.as_str(), name) {
                return Some(i);
            }
            i = i + 1;
        }
        None
    }

    /// Names of all registered files, each once.
    pub fn get_files(&self) -> (r: Vec<String>)
        requires
            self.wf(),
        ensures
            r@.len() == self@.files.dom().len(),
            forall|i: int, j: int| 0 <= i < r@.len() && 0 <= j < r@.len() && i != j ==> r@[i]@ != r@[j]@,
            forall|k: Seq<char>| self@.files.contains_key(k) <==> exists|i: int| 0 <= i < r@.len() && #[trigger] r@[i]@ == k,
    {
        let mut r: Vec<String> = Vec::new();
        let mut i: usize = 0;
        while i < self.files.len()
            invariant
                self.wf(),
                i <= self.files@.len(),
                r@.len() == i,
                forall|j: int| 0 <= j < i ==> #[trigger] r@[j]@ == self.files@[j].name@,
            decreases self.files@.len() - i,
        {
            r.push(self.files[i].name.clone());
            i = i + 1;
        }
        proof {
            let e = self.files@;
            assert forall|k: Seq<char>| self@.files.contains_key(k) <==> exists|i: int| 0 <= i < r@.len() && #[trigger] r@[i]@ == k by {
                if self@.files.contains_key(k) {
                    let i = choose|i: int| 0 <= i < e.len() && #[trigger] e[i].name@ == k;
                    assert(r@[i]@ == k);
                }
                if exists|i: int| 0 <= i < r@.len() && #[trigger] r@[i]@ == k {
                    let i = choose|i: int| 0 <= i < r@.len() && #[trigger] r@[i]@ == k;
                    assert(e[i].name@ == k);
                }
            }
            let names = e.map_values(|f: FileEntry| f.name@);
            assert forall|a: int, b: int| 0 <= a < names.len() && 0 <= b < names.len() && a != b implies names[a] != names[b] by {
                assert(e[a].name@ != e[b].name@);
            }
            names.unique_seq_to_set();
            assert(names.to_set() =~= self@.files.dom()) by {
                assert forall|k: Seq<char>| names.to_set().contains(k) <==> self@.files.dom().contains(k) by {
                    if names.to_set().contains(k) {
                        let i = choose|i: int| 0 <= i < names.len() && names[i] == k;
                        assert(e[i].name@ == k);
                    }
                    if self@.files.contains_key(k) {
                        let i = choose|i: int| 0 <= i < e.len() && #[trigger] e[i].name@ == k;
                        assert(names[i] == k);
                    }
                }
            }
        }
        r
    }

    /// The directory's annotations, oldest first.
    pub fn get_directory_annotations(&self) -> (r: &Vec<Annotation>)
        ensures
            annos_view(r@) == self@.dir,
    {
        &self.dir
    }

    /// The annotations of a registered file; `None` for a name never registered.
    pub fn get_file_annotations(&self, filename: &str) -> (r: Option<&Vec<Annotation>>)
        requires
            self.wf(),
        ensures
            r.is_some() == self@.files.contains_key(filename@),
            r.is_some() ==> annos_view(r.unwrap()@) == self@.files[filename@],
    {
        match self.find_file(filename) {
            Some(i) => {
                proof {
                    lemma_files_view_at(self.files@, i as int);
                }
                Some(&self.files[i].annos)
            },
            None => None,
        }
    }

    /// Appends an annotation to the directory's list.
    pub fn add_directory_annotation(&mut self, anno: Annotation)
        ensures
            final(self)@.dir == old(self)@.dir.push(anno@),
            final(self)@.files == old(self)@.files,
            final(self).wf() == old(self).wf(),
    {
        self.dir.push(anno);
        proof {
            assert(annos_view(self.dir@) =~= annos_view(old(self).dir@).push(anno@));
        }
    }

    /// Removes every directory annotation whose key is `key`; tells whether there was one.
    pub fn remove_directory_annotation_entries(&mut self, key: &str) -> (r: bool)
        ensures
            final(self)@.dir == without_key(old(self)@.dir, key@),
            final(self)@.files == old(self)@.files,
            final(self).wf() == old(self).wf(),
            r == has_key(old(self)@.dir, key@),
    {
        drop_key(&mut self.dir, key)
    }

    /// Appends an annotation to a file's list, registering the file first if needed.
    pub fn add_file_annotation(&mut self, filename: &str, anno: Annotation)
        requires
            old(self).wf(),
        ensures
            final(self).wf(),
            final(self)@.dir == old(self)@.dir,
            final(self)@.files == old(self)@.files.insert(
                filename@,
                if old(self)@.files.contains_key(filename@) {
                    old(self)@.files[filename@]
                } else {
                    Seq::<AnnotationView>::empty()
                }.push(anno@),
            ),
    {
        match self.find_file(filename) {
            Some(i) => {
                proof {
                    lemma_files_view_at(self.files@, i as int);
                }
                let mut entry = self.files.remove(i);
                let ghost before = entry.annos@;
                entry.annos.push(anno);
                proof {
                    assert(annos_view(entry.annos@) =~= annos_view(before).push(anno@));
                    assert(old(self).files@.remove(i as int).insert(i as int, entry) =~= old(self).files@.update(i as int, entry));
                    lemma_files_view_update(old(self).files@, i as int, entry);
                }
                self.files.insert(i, entry);
            },
            None => {
                let mut list: Vec<Annotation> = Vec::new();
                list.push(anno);
                let entry = FileEntry { name: filename.to_owned(), annos: list };
                proof {
                    assert(annos_view(entry.annos@) =~= Seq::<AnnotationView>::empty().push(anno@));
                    lemma_files_view_push(self.files@, entry);
                }
                self.files.push(entry);
            },
        }
    }

    /// Removes every annotation of `filename` whose key is `key`; tells whether
    /// there was one. An unregistered name changes nothing.
    pub fn remove_file_annotation_entries(&mut self, filename: &str, key: &str) -> (r: bool)
        requires
            old(self).wf(),
        ensures
            final(self).wf(),
            final(self)@.dir == old(self)@.dir,
            old(self)@.files.contains_key(filename@) ==> final(self)@.files == old(self)@.files.insert(
                filename@,
                without_key(old(self)@.files[filename@], key@),
            ),
            !old(self)@.files.contains_key(filename@) ==> final(self)@.files == old(self)@.files,
            r == (old(self)@.files.contains_key(filename@) && has_key(old(self)@.files[filename@], key@)),
    {
        match self.find_file(filename) {
            Some(i) => {
                proof {
                    lemma_files_view_at(self.files@, i as int);
                }
                let mut entry = self.files.remove(i);
                let r = drop_key(&mut entry.annos, key);
                proof {
                    assert(old(self).files@.remove(i as int).insert(i as int, entry) =~= old(self).files@.update(i as int, entry));
                    lemma_files_view_update(old(self).files@, i as int, entry);
                }
                self.files.insert(i, entry);
                r
            },
            None => false,
        }
    }

    /// Unregisters a file with all its annotations; tells whether it was registered.
    pub fn drop_file_annotations(&mut self, filename: &str) -> (r: bool)
        requires
            old(self).wf(),
        ensures
            final(self).wf(),
            final(self)@.dir == old(self)@.dir,
            final(self)@.files == old(self)@.files.remove(filename@),
            r == old(self)@.files.contains_key(filename@),
    {
        match self.find_file(filename) {
            Some(i) => {
                proof {
                    lemma_files_view_remove(self.files@, i as int);
                }
                self.files.remove(i);
                true
            },
            None => {
                proof {
                    assert(self@.files.remove(filename@) =~= self@.files);
                }
                false
            },
        }
    }
}

} // verus!
