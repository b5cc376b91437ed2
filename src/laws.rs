use vstd::prelude::*;
use crate::model::{AnnotationView, StoreView};
use crate::parse::{
    join_line, leader_of, lemma_run_append, parse_lines, record, rest_of, run,
    start_state, step, ParseState, Phase,
};
use crate::serialize::{anno_lines, file_lines, files_lines, is_listing, list_lines, store_lines};
use crate::stamp::{creation_file, creation_key};
use crate::text::{is_space, lines_of, split_text, strip_cr, trim_end, lemma_split_nonempty};

verus! {

/// `s` has no trailing whitespace.
pub open spec fn clean(s: Seq<char>) -> bool {
    trim_end(s) == s
}

/// A value that its lines give back: no line of it ends in whitespace, and it
/// neither starts nor ends with a newline.
pub open spec fn clean_value(v: Seq<char>) -> bool {
    &&& forall|i: int| 0 <= i < split_text(v).len() ==> clean(#[trigger] split_text(v)[i])
    &&& v.len() > 0 ==> v[0] != '\n' && v.last() != '\n'
}

/// An annotation that a file can hold unchanged.
pub open spec fn storable(a: AnnotationView) -> bool {
    clean(a.key) && clean(a.context) && clean_value(a.value)
}

/// A store that a file can hold unchanged: every name and annotation storable,
/// and a last line that closes an annotation (some file has an annotation, or
/// no file is registered and the directory has one).
pub open spec fn storable_store(s: StoreView) -> bool {
    &&& forall|i: int| 0 <= i < s.dir.len() ==> storable(#[trigger] s.dir[i])
    &&& forall|k: Seq<char>| #[trigger] s.files.contains_key(k) ==> clean(k)
        && forall|i: int| 0 <= i < s.files[k].len() ==> storable(#[trigger] s.files[k][i])
    &&& (exists|k: Seq<char>| #[trigger] s.files.contains_key(k) && s.files[k].len() > 0)
        || (s.files.dom().is_empty() && s.dir.len() > 0)
}

/// Phases in which a file header or a new annotation may come.
pub open spec fn opens(p: Phase) -> bool {
    p == Phase::Start || p == Phase::AfterFile || p == Phase::AfterContext
}

/// The pieces joined with newlines.
pub open spec fn join_pieces(s: Seq<Seq<char>>) -> Seq<char>
    decreases s.len(),
{
    if s.len() <= 1 {
        if s.len() == 0 { Seq::empty() } else { s[0] }
    } else {
        join_pieces(s.drop_last()) + seq!['\n'] + s.last()
    }
}

/// The value that value lines `s` build up from nothing.
pub open spec fn built_value(s: Seq<Seq<char>>) -> Seq<char>
    decreases s.len(),
{
    if s.len() == 0 { Seq::empty() } else { join_line(built_value(s.drop_last()), s.last()) }
}

proof fn lemma_join_split(v: Seq<char>)
    ensures
        join_pieces(split_text(v)) == v,
        split_text(v).len() >= 1,
    decreases v.len(),
{
    lemma_split_nonempty(v);
    if v.len() > 0 {
        let p = v.drop_last();
        lemma_join_split(p);
        let s = split_text(p);
        if v.last() == '\n' {
            assert(s.push(Seq::empty()).drop_last() =~= s);
            assert(join_pieces(split_text(v)) =~= v);
        } else {
            let s2 = s.update(s.len() - 1, s.last().push(v.last()));
            if s.len() == 1 {
                assert(join_pieces(s) == s[0]);
                assert(s2.len() == 1);
                assert(join_pieces(s2) == s2[0]);
                assert(s2[0] == s[0].push(v.last()));
                assert(v =~= p.push(v.last()));
            } else {
                assert(s2.drop_last() =~= s.drop_last());
                assert(join_pieces(s) == join_pieces(s.drop_last()) + seq!['\n'] + s.last());
                assert(join_pieces(s2) == join_pieces(s.drop_last()) + seq!['\n'] + s2.last());
                assert(s2.last() == s.last().push(v.last()));
                assert(v =~= p.push(v.last()));
                assert(join_pieces(s2) =~= v);
            }
        }
    }
}

proof fn lemma_split_first(v: Seq<char>)
    requires
        v.len() > 0,
        v[0] != '\n',
    ensures
        split_text(v)[0].len() > 0,
    decreases v.len(),
{
    lemma_split_nonempty(v);
    let p = v.drop_last();
    lemma_split_nonempty(p);
    if p.len() > 0 {
        lemma_split_first(p);
    }
}

proof fn lemma_built_joined(s: Seq<Seq<char>>)
    requires
        s.len() >= 1,
        s[0].len() > 0,
    ensures
        built_value(s) == join_pieces(s),
        built_value(s).len() > 0,
    decreases s.len(),
{
    if s.len() == 1 {
        assert(s.drop_last() =~= Seq::<Seq<char>>::empty());
        assert(built_value(s.drop_last()) == Seq::<char>::empty());
        assert(built_value(s) == s[0]);
    } else {
        assert(s.drop_last()[0] == s[0]);
        lemma_built_joined(s.drop_last());
        assert(built_value(s) == built_value(s.drop_last()) + seq!['\n'] + s.last());
    }
}

proof fn lemma_clean_no_cr(l: Seq<char>)
    requires
        clean(l),
    ensures
        strip_cr(l) == l,
{
    if l.len() > 0 && l.last() == '\r' {
        assert(is_space(l.last()));
        assert(trim_end(l) == trim_end(l.drop_last()));
        assert(trim_end(l.drop_last()).len() <= l.drop_last().len()) by {
            lemma_trim_shorter(l.drop_last());
        }
    }
}

proof fn lemma_trim_shorter(s: Seq<char>)
    ensures
        trim_end(s).len() <= s.len(),
    decreases s.len(),
{
    if s.len() > 0 && is_space(s.last()) {
        lemma_trim_shorter(s.drop_last());
    }
}

proof fn lemma_lead(c: char, s: Seq<char>)
    ensures
        leader_of(seq![c] + s) == c,
        rest_of(seq![c] + s) == trim_end(s),
{
    assert((seq![c] + s).drop_first() =~= s);
}

proof fn lemma_run_single(st: ParseState, l: Seq<char>)
    ensures
        run(st, seq![l]) == match step(st, l) {
            None => Err(0),
            Some(t) => Ok::<ParseState, int>(t),
        },
{
    assert(seq![l].drop_first() =~= Seq::<Seq<char>>::empty());
    assert(seq![l][0] == l);
    if step(st, l) is Some {
        let t = step(st, l)->0;
        assert(run(t, Seq::<Seq<char>>::empty()) == Ok::<ParseState, int>(t));
    }
}

proof fn lemma_run_snoc(st: ParseState, ls: Seq<Seq<char>>, l: Seq<char>)
    ensures
        run(st, ls.push(l)) == match run(st, ls) {
            Err(i) => Err(i),
            Ok(t) => match step(t, l) {
                None => Err(ls.len() as int),
                Some(u) => Ok(u),
            },
        },
{
    assert(ls.push(l) =~= ls + seq![l]);
    lemma_run_append(st, ls, seq![l]);
    if run(st, ls) is Ok {
        lemma_run_single(run(st, ls)->Ok_0, l);
    }
}

/// Value lines read after a key: the value built, the phase after them.
proof fn lemma_run_values(st: ParseState, s: Seq<Seq<char>>)
    requires
        st.phase == Phase::AfterKey,
        st.value.len() == 0,
        forall|i: int| 0 <= i < s.len() ==> clean(#[trigger] s[i]),
    ensures
        run(st, s.map_values(|l: Seq<char>| seq!['='] + l)) == Ok::<ParseState, int>(ParseState {
            phase: if s.len() == 0 { Phase::AfterKey } else { Phase::AfterValue },
            value: built_value(s),
            ..st
        }),
    decreases s.len(),
{
    let ls = s.map_values(|l: Seq<char>| seq!['='] + l);
    if s.len() == 0 {
        assert(ls =~= Seq::<Seq<char>>::empty());
        assert(st.value =~= built_value(s));
        assert(ParseState { phase: Phase::AfterKey, value: built_value(s), ..st } == st);
    } else {
        let p = s.drop_last();
        lemma_run_values(st, p);
        assert(ls =~= p.map_values(|l: Seq<char>| seq!['='] + l).push(seq!['='] + s.last()));
        lemma_run_snoc(st, p.map_values(|l: Seq<char>| seq!['='] + l), seq!['='] + s.last());
        lemma_lead('=', s.last());
        assert(clean(s[s.len() - 1]));
    }
}

/// One annotation read in a phase where it may start.
proof fn lemma_run_anno(st: ParseState, a: AnnotationView)
    requires
        opens(st.phase),
        storable(a),
    ensures
        run(st, anno_lines(a)) is Ok,
        run(st, anno_lines(a))->Ok_0.phase == Phase::AfterContext,
        run(st, anno_lines(a))->Ok_0.dir == record(st, a).dir,
        run(st, anno_lines(a))->Ok_0.files == record(st, a).files,
        run(st, anno_lines(a))->Ok_0.current == st.current,
{
    let v = a.value;
    let s = split_text(v);
    lemma_join_split(v);
    let pieces = if s.last().len() == 0 { s.drop_last() } else { s };
    assert(lines_of(v) == pieces.map_values(|l: Seq<char>| strip_cr(l)));
    assert forall|i: int| 0 <= i < pieces.len() implies clean(#[trigger] pieces[i]) by {
        assert(pieces[i] == s[i]);
    }
    assert forall|i: int| 0 <= i < pieces.len() implies strip_cr(#[trigger] pieces[i]) == pieces[i] by {
        lemma_clean_no_cr(pieces[i]);
    }
    assert(lines_of(v) =~= pieces);
    if v.len() > 0 {
        lemma_split_first(v);
        assert(s.last().len() > 0) by {
            if v.last() != '\n' {
                lemma_split_nonempty(v.drop_last());
            }
        }
        assert(pieces == s);
        lemma_built_joined(s);
    } else {
        assert(s =~= seq![Seq::<char>::empty()]);
        assert(pieces =~= Seq::<Seq<char>>::empty());
    }
    assert(built_value(pieces) == v);
    let head = seq!['>'] + a.key;
    lemma_lead('>', a.key);
    let st1 = ParseState { phase: Phase::AfterKey, key: a.key, value: Seq::empty(), ..st };
    assert(step(st, head) == Some(st1));
    let vl = pieces.map_values(|l: Seq<char>| seq!['='] + l);
    lemma_run_values(st1, pieces);
    let st2 = ParseState { phase: if pieces.len() == 0 { Phase::AfterKey } else { Phase::AfterValue }, value: v, ..st1 };
    lemma_run_single(st, head);
    lemma_run_append(st, seq![head], vl);
    assert(run(st, seq![head]) == Ok::<ParseState, int>(st1));
    assert(run(st, seq![head] + vl) == Ok::<ParseState, int>(st2));
    let tail = seq!['<'] + a.context;
    lemma_lead('<', a.context);
    lemma_run_snoc(st, seq![head] + vl, tail);
    assert(anno_lines(a) =~= (seq![head] + vl).push(tail));
}

/// The annotations of a list read in a phase where an annotation may start.
proof fn lemma_run_list(st: ParseState, v: Seq<AnnotationView>)
    requires
        opens(st.phase),
        st.current is Some ==> st.files.contains_key(st.current->0),
        forall|i: int| 0 <= i < v.len() ==> storable(#[trigger] v[i]),
    ensures
        run(st, list_lines(v)) is Ok,
        run(st, list_lines(v))->Ok_0.phase == if v.len() == 0 { st.phase } else { Phase::AfterContext },
        run(st, list_lines(v))->Ok_0.current == st.current,
        st.current is None ==> run(st, list_lines(v))->Ok_0.dir == st.dir + v
            && run(st, list_lines(v))->Ok_0.files == st.files,
        st.current is Some ==> run(st, list_lines(v))->Ok_0.dir == st.dir
            && run(st, list_lines(v))->Ok_0.files == st.files.insert(
                st.current->0,
                st.files[st.current->0] + v,
            ),
    decreases v.len(),
{
    if v.len() == 0 {
        assert(st.dir + v =~= st.dir);
        assert(list_lines(v) =~= Seq::<Seq<char>>::empty());
        if st.current is Some {
            let f = st.current->0;
            assert(st.files[f] + v =~= st.files[f]);
            assert(st.files.insert(f, st.files[f]) =~= st.files);
        }
    } else {
        let p = v.drop_last();
        lemma_run_list(st, p);
        let t = run(st, list_lines(p))->Ok_0;
        lemma_run_append(st, list_lines(p), anno_lines(v.last()));
        assert(storable(v[v.len() - 1]));
        lemma_run_anno(t, v.last());
        if st.current is None {
            assert(st.dir + v =~= (st.dir + p).push(v.last()));
        } else {
            let f = st.current->0;
            assert(st.files[f] + v =~= (st.files[f] + p).push(v.last()));
            assert(t.files[f] == st.files[f] + p);
        }
    }
}

/// One file block read in a phase where it may start.
proof fn lemma_run_file(st: ParseState, name: Seq<char>, v: Seq<AnnotationView>)
    requires
        opens(st.phase),
        clean(name),
        forall|i: int| 0 <= i < v.len() ==> storable(#[trigger] v[i]),
    ensures
        run(st, file_lines(name, v)) is Ok,
        run(st, file_lines(name, v))->Ok_0.phase == if v.len() == 0 { Phase::AfterFile } else { Phase::AfterContext },
        run(st, file_lines(name, v))->Ok_0.dir == st.dir,
        run(st, file_lines(name, v))->Ok_0.files == st.files.insert(name, v),
{
    let head = seq!['@'] + name;
    lemma_lead('@', name);
    let st1 = ParseState {
        phase: Phase::AfterFile,
        files: st.files.insert(name, Seq::empty()),
        current: Some(name),
        ..st
    };
    assert(step(st, head) == Some(st1));
    lemma_run_single(st, head);
    assert(run(st, seq![head]) == Ok::<ParseState, int>(st1));
    lemma_run_append(st, seq![head], list_lines(v));
    lemma_run_list(st1, v);
    assert(Seq::<AnnotationView>::empty() + v =~= v);
    assert(st1.files.insert(name, v) =~= st.files.insert(name, v));
}

/// The files of `order` registered one after the other over `m`.
pub open spec fn registered(
    m: Map<Seq<char>, Seq<AnnotationView>>,
    order: Seq<Seq<char>>,
    files: Map<Seq<char>, Seq<AnnotationView>>,
) -> Map<Seq<char>, Seq<AnnotationView>>
    decreases order.len(),
{
    if order.len() == 0 {
        m
    } else {
        registered(m, order.drop_last(), files).insert(order.last(), files[order.last()])
    }
}

/// The file blocks of `order` read in a phase where a block may start.
proof fn lemma_run_files(st: ParseState, order: Seq<Seq<char>>, files: Map<Seq<char>, Seq<AnnotationView>>)
    requires
        opens(st.phase),
        forall|i: int| 0 <= i < order.len() ==> files.contains_key(#[trigger] order[i]),
        forall|k: Seq<char>| #[trigger] files.contains_key(k) ==> clean(k)
            && forall|i: int| 0 <= i < files[k].len() ==> storable(#[trigger] files[k][i]),
    ensures
        run(st, files_lines(order, files)) is Ok,
        opens(run(st, files_lines(order, files))->Ok_0.phase),
        order.len() == 0 ==> run(st, files_lines(order, files))->Ok_0.phase == st.phase,
        order.len() > 0 ==> (run(st, files_lines(order, files))->Ok_0.phase == Phase::AfterContext
            <==> files[order.last()].len() > 0),
        run(st, files_lines(order, files))->Ok_0.dir == st.dir,
        run(st, files_lines(order, files))->Ok_0.files == registered(st.files, order, files),
    decreases order.len(),
{
    if order.len() > 0 {
        let p = order.drop_last();
        assert forall|i: int| 0 <= i < p.len() implies files.contains_key(#[trigger] p[i]) by {
            assert(p[i] == order[i]);
        }
        lemma_run_files(st, p, files);
        let t = run(st, files_lines(p, files))->Ok_0;
        let k = order.last();
        assert(files.contains_key(order[order.len() - 1]));
        lemma_run_append(st, files_lines(p, files), file_lines(k, files[k]));
        lemma_run_file(t, k, files[k]);
    }
}

proof fn lemma_registered(order: Seq<Seq<char>>, files: Map<Seq<char>, Seq<AnnotationView>>)
    ensures
        registered(Map::empty(), order, files) =~= Map::new(
            |k: Seq<char>| order.contains(k),
            |k: Seq<char>| files[k],
        ),
    decreases order.len(),
{
    if order.len() > 0 {
        let p = order.drop_last();
        lemma_registered(p, files);
        assert forall|k: Seq<char>| order.contains(k) <==> (p.contains(k) || k == order.last()) by {
            if order.contains(k) {
                let i = choose|i: int| 0 <= i < order.len() && order[i] == k;
                if i < p.len() {
                    assert(p[i] == k);
                }
            }
            if p.contains(k) {
                let i = choose|i: int| 0 <= i < p.len() && p[i] == k;
                assert(order[i] == k);
            }
        }
    }
}

/// Writing a store out and reading the lines back gives the same store, for
/// every order of the files that the writer may choose, as long as the store
/// is one a file can hold (see `storable_store`).
pub proof fn lemma_round_trip(s: StoreView)
    requires
        storable_store(s),
    ensures
        forall|order: Seq<Seq<char>>| #[trigger] is_listing(order, s.files)
            ==> parse_lines(store_lines(s.dir, s.files, order)) == Ok::<StoreView, (int, char)>(s),
{
    assert forall|order: Seq<Seq<char>>| #[trigger] is_listing(order, s.files)
        implies parse_lines(store_lines(s.dir, s.files, order)) == Ok::<StoreView, (int, char)>(s) by {
        let st0 = start_state();
        lemma_run_list(st0, s.dir);
        let t = run(st0, list_lines(s.dir))->Ok_0;
        assert(Seq::<AnnotationView>::empty() + s.dir =~= s.dir);
        assert forall|i: int| 0 <= i < order.len() implies s.files.contains_key(#[trigger] order[i]) by {
            assert(order.contains(order[i]));
        }
        lemma_run_files(t, order, s.files);
        lemma_run_append(st0, list_lines(s.dir), files_lines(order, s.files));
        let u = run(st0, store_lines(s.dir, s.files, order))->Ok_0;
        lemma_registered(order, s.files);
        assert(u.files =~= s.files);
        if order.len() == 0 {
            if exists|k: Seq<char>| #[trigger] s.files.contains_key(k) && s.files[k].len() > 0 {
                let k = choose|k: Seq<char>| #[trigger] s.files.contains_key(k) && s.files[k].len() > 0;
                assert(order.contains(k));
            }
            assert(s.dir.len() > 0);
        } else {
            let last = order.len() - 1;
            if s.files[order[last]].len() == 0 {
                let k = choose|k: Seq<char>| #[trigger] s.files.contains_key(k) && s.files[k].len() > 0;
                assert(order.contains(k));
                let i = choose|i: int| 0 <= i < order.len() && order[i] == k;
                assert(i != last);
                assert(s.files[order[i]].len() == 0);
                assert(false);
            }
        }
        assert(u.phase == Phase::AfterContext);
    }
}

/// A key line followed directly by a context line is a whole file: one
/// directory annotation with an empty value.
pub proof fn lemma_key_then_context(k: Seq<char>, c: Seq<char>)
    ensures
        parse_lines(seq![seq!['>'] + k, seq!['<'] + c]) == Ok::<StoreView, (int, char)>(StoreView {
            dir: seq![AnnotationView { key: trim_end(k), value: Seq::empty(), context: trim_end(c) }],
            files: Map::empty(),
        }),
{
    let st0 = start_state();
    lemma_lead('>', k);
    lemma_lead('<', c);
    lemma_run_single(st0, seq!['>'] + k);
    lemma_run_snoc(st0, seq![seq!['>'] + k], seq!['<'] + c);
    assert(seq![seq!['>'] + k].push(seq!['<'] + c) =~= seq![seq!['>'] + k, seq!['<'] + c]);
    let t = run(st0, seq![seq!['>'] + k, seq!['<'] + c])->Ok_0;
    assert(t.dir =~= seq![AnnotationView { key: trim_end(k), value: Seq::empty(), context: trim_end(c) }]);
}

/// A file whose first line is a value line fails at line 1.
pub proof fn lemma_value_first(x: Seq<char>, rest: Seq<Seq<char>>)
    ensures
        parse_lines(seq![seq!['='] + x] + rest) == Err::<StoreView, (int, char)>((1, '=')),
{
    let ls = seq![seq!['='] + x] + rest;
    lemma_lead('=', x);
    assert(ls[0] == seq!['='] + x);
    assert(step(start_state(), ls[0]) is None);
}

/// A file whose last line opens an annotation fails.
pub proof fn lemma_truncated(lines: Seq<Seq<char>>, k: Seq<char>)
    requires
        lines.len() > 0,
        lines.last() == seq!['>'] + k,
    ensures
        parse_lines(lines) is Err,
{
    let p = lines.drop_last();
    assert(p.push(lines.last()) =~= lines);
    lemma_run_snoc(start_state(), p, lines.last());
    lemma_lead('>', k);
}

/// A new file reads back as its one `creation time` annotation and no file.
pub proof fn lemma_creation_file(stamp: Seq<char>, reason: Seq<char>)
    ensures
        parse_lines(creation_file(stamp, reason)) == Ok::<StoreView, (int, char)>(StoreView {
            dir: seq![AnnotationView { key: creation_key(), value: trim_end(stamp), context: trim_end(reason) }],
            files: Map::empty(),
        }),
{
    let st0 = start_state();
    let l0 = seq!['>'] + creation_key();
    let l1 = seq!['='] + stamp;
    let l2 = seq!['<'] + reason;
    lemma_lead('>', creation_key());
    lemma_lead('=', stamp);
    lemma_lead('<', reason);
    assert(clean(creation_key())) by {
        assert(!is_space(creation_key().last()));
    }
    lemma_run_single(st0, l0);
    lemma_run_snoc(st0, seq![l0], l1);
    assert(seq![l0].push(l1) =~= seq![l0, l1]);
    lemma_run_snoc(st0, seq![l0, l1], l2);
    assert(seq![l0, l1].push(l2) =~= creation_file(stamp, reason));
    let t = run(st0, creation_file(stamp, reason))->Ok_0;
    assert(t.dir =~= seq![AnnotationView { key: creation_key(), value: trim_end(stamp), context: trim_end(reason) }]);
}

/// A file that an annotation was added to is listed; once dropped, it is not
/// found at all.
pub proof fn lemma_register_then_drop(
    files: Map<Seq<char>, Seq<AnnotationView>>,
    name: Seq<char>,
    a: AnnotationView,
)
    ensures
        ({
            let added = files.insert(
                name,
                if files.contains_key(name) { files[name] } else { Seq::empty() }.push(a),
            );
            added.contains_key(name) && added[name].len() > 0 && !added.remove(name).contains_key(name)
        }),
{
}

} // verus!
