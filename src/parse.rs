use vstd::prelude::*;
use crate::model::{
    annos_view, files_view, lemma_files_view_at, lemma_files_view_push, lemma_files_view_update,
    names_unique, AnnoError, Annotation, AnnotationView, Annovate, FileEntry, StoreView,
};
use crate::text::{texts_view, trim_end, trimmed};

verus! {

/// Where the parser stands: what kind of line came last.
#[derive(Clone, Copy, PartialEq, Eq, Structural, Debug)]
pub enum Phase {
    Start,
    AfterFile,
    AfterKey,
    AfterValue,
    AfterContext,
}

/// The phase after a line with leading character `c`, or `None` where such a
/// line may not follow.
pub open spec fn next_phase(p: Phase, c: char) -> Option<Phase> {
    let opens = p == Phase::Start || p == Phase::AfterFile || p == Phase::AfterContext;
    let inside = p == Phase::AfterKey || p == Phase::AfterValue;
    if c == '@' && opens {
        Some(Phase::AfterFile)
    } else if c == '>' && opens {
        Some(Phase::AfterKey)
    } else if c == '=' && inside {
        Some(Phase::AfterValue)
    } else if c == '<' && inside {
        Some(Phase::AfterContext)
    } else {
        None
    }
}

/// The leading character of a line; a space for an empty line.
pub open spec fn leader_of(line: Seq<char>) -> char {
    if line.len() == 0 { ' ' } else { line[0] }
}

/// A line after its leading character, without trailing whitespace.
pub open spec fn rest_of(line: Seq<char>) -> Seq<char> {
    if line.len() == 0 { Seq::empty() } else { trim_end(line.drop_first()) }
}

/// A value with one more line joined on.
pub open spec fn join_line(value: Seq<char>, line: Seq<char>) -> Seq<char> {
    if value.len() == 0 { line } else { value + seq!['\n'] + line }
}

/// Everything the parser carries from one line to the next.
pub struct ParseState {
    pub phase: Phase,
    pub dir: Seq<AnnotationView>,
    pub files: Map<Seq<char>, Seq<AnnotationView>>,
    pub current: Option<Seq<char>>,
    pub key: Seq<char>,
    pub value: Seq<char>,
}

pub open spec fn start_state() -> ParseState {
    ParseState {
        phase: Phase::Start,
        dir: Seq::empty(),
        files: Map::empty(),
        current: None,
        key: Seq::empty(),
        value: Seq::empty(),
    }
}

/// The state with `a` appended to the list that lines go to now.
pub open spec fn record(st: ParseState, a: AnnotationView) -> ParseState {
    match st.current {
        None => ParseState { dir: st.dir.push(a), ..st },
        Some(f) => ParseState { files: st.files.insert(f, st.files[f].push(a)), ..st },
    }
}

/// One line read in `st`; `None` where the line is refused.
pub open spec fn step(st: ParseState, line: Seq<char>) -> Option<ParseState> {
    let c = leader_of(line);
    let r = rest_of(line);
    match next_phase(st.phase, c) {
        None => None,
        Some(p) => Some(
            if c == '@' {
                ParseState { phase: p, files: st.files.insert(r, Seq::empty()), current: Some(r), ..st }
            } else if c == '>' {
                ParseState { phase: p, key: r, value: Seq::empty(), ..st }
            } else if c == '=' {
                ParseState { phase: p, value: join_line(st.value, r), ..st }
            } else {
                ParseState { phase: p, ..record(st, AnnotationView { key: st.key, value: st.value, context: r }) }
            },
        ),
    }
}

/// All `lines` read from `st`: the state after them, or the position of the
/// first line refused.
pub open spec fn run(st: ParseState, lines: Seq<Seq<char>>) -> Result<ParseState, int>
    decreases lines.len(),
{
    if lines.len() == 0 {
        Ok(st)
    } else {
        match step(st, lines[0]) {
            None => Err(0),
            Some(t) => match run(t, lines.drop_first()) {
                Ok(u) => Ok(u),
                Err(i) => Err(i + 1),
            },
        }
    }
}

/// What a file of `lines` holds, or the 1-based line number and leading
/// character of the error. A file that stops inside an annotation fails one
/// line past its end, with a space.
pub open spec fn parse_lines(lines: Seq<Seq<char>>) -> Result<StoreView, (int, char)> {
    match run(start_state(), lines) {
        Err(i) => Err((i + 1, leader_of(lines[i]))),
        Ok(st) => if st.phase == Phase::AfterContext {
            Ok(StoreView { dir: st.dir, files: st.files })
        } else {
            Err((lines.len() + 1 as int, ' '))
        },
    }
}

pub proof fn lemma_run_append(st: ParseState, a: Seq<Seq<char>>, b: Seq<Seq<char>>)
    ensures
        run(st, a + b) == match run(st, a) {
            Err(i) => Err(i),
            Ok(t) => match run(t, b) {
                Ok(u) => Ok(u),
                Err(i) => Err(i + a.len()),
            },
        },
    decreases a.len(),
{
    if a.len() == 0 {
        assert(a + b =~= b);
        match run(st, b) {
            Ok(u) => {},
            Err(i) => {},
        }
    } else {
        assert((a + b)[0] == a[0]);
        assert((a + b).drop_first() =~= a.drop_first() + b);
        match step(st, a[0]) {
            None => {},
            Some(t) => {
                lemma_run_append(t, a.drop_first(), b);
            },
        }
    }
}

/// The phase that a line with leading character `current` leads to after
/// `last`, or the error for line `line_no`.
pub fn test_leader(last: Phase, current: char, line_no: u64) -> (r: Result<Phase, AnnoError>)
    ensures
        match r {
            Ok(p) => next_phase(last, current) == Some(p),
            Err(e) => next_phase(last, current).is_none() && e == AnnoError::ParseError(line_no, current),
        },
{
    let opens = last == Phase::Start || last == Phase::AfterFile || last == Phase::AfterContext;
    let inside = last == Phase::AfterKey || last == Phase::AfterValue;
    if current == '@' && opens {
        Ok(Phase::AfterFile)
    } else if current == '>' && opens {
        Ok(Phase::AfterKey)
    } else if current == '=' && inside {
        Ok(Phase::AfterValue)
    } else if current == '<' && inside {
        Ok(Phase::AfterContext)
    } else {
        Err(AnnoError::ParseError(line_no, current))
    }
}

/// Splits a line into its leading character and the rest without trailing
/// whitespace; an empty line gives a space and nothing.
pub fn extract_line_parts<'a>(line: &'a str) -> (r: (char, &'a str))
    ensures
        r.0 == leader_of(line@),
        r.1@ == rest_of(line@),
{
    let n = line.unicode_len();
    if n == 0 {
        (' ', line)
    } else {
        let leader = line.get_char(0);
        let rest = trimmed(line.substring_char(1, n));
        proof {
            assert(line@.subrange(1, n as int) =~= line@.drop_first());
        }
        (leader, rest)
    }
}

/// The parser's state as the loop of `parse_annovate` holds it.
pub open spec fn held_state(
    phase: Phase,
    dir: Seq<Annotation>,
    files: Seq<FileEntry>,
    cur: Option<usize>,
    key: Seq<char>,
    value: Seq<char>,
) -> ParseState {
    ParseState {
        phase,
        dir: annos_view(dir),
        files: files_view(files),
        current: match cur {
            None => None,
            Some(c) => Some(files[c as int].name@),
        },
        key,
        value,
    }
}

proof fn lemma_run_one_more(lv: Seq<Seq<char>>, i: int, st: ParseState)
    requires
        0 <= i < lv.len(),
        run(start_state(), lv.take(i)) == Ok::<ParseState, int>(st),
    ensures
        step(st, lv[i]) is None ==> run(start_state(), lv) == Err::<ParseState, int>(i),
        step(st, lv[i]) is Some ==> run(start_state(), lv.take(i + 1)) == Ok::<ParseState, int>(step(st, lv[i])->0),
{
    assert(lv.take(i + 1) =~= lv.take(i) + seq![lv[i]]);
    lemma_run_append(start_state(), lv.take(i), seq![lv[i]]);
    assert(seq![lv[i]].drop_first() =~= Seq::<Seq<char>>::empty());
    assert(seq![lv[i]][0] == lv[i]);
    if step(st, lv[i]) is Some {
        let t = step(st, lv[i])->0;
        assert(run(t, Seq::<Seq<char>>::empty()) == Ok::<ParseState, int>(t));
        assert(run(st, seq![lv[i]]) == Ok::<ParseState, int>(t));
    }
    assert(lv =~= lv.take(i) + lv.skip(i));
    lemma_run_append(start_state(), lv.take(i), lv.skip(i));
    assert(lv.skip(i)[0] == lv[i]);
}

impl Annovate {
    /// Reads the lines of an annotation file.
    pub fn new(lines: &Vec<String>) -> (r: Result<Annovate, AnnoError>)
        requires
            lines@.len() < u64::MAX,
        ensures
            match (r, parse_lines(texts_view(lines@))) {
                (Ok(a), Ok(v)) => a.wf() && a@ == v,
                (Err(e), Err((n, c))) => 0 < n <= u64::MAX && e == AnnoError::ParseError(n as u64, c),
                _ => false,
            },
    {
        let ghost lv = texts_view(lines@);
        let mut result = Annovate::empty();
        proof {
            result.lemma_view();
        }
        let mut cur: Option<usize> = None;
        let mut key = String::new();
        let mut value = String::new();
        let mut last = Phase::Start;
        let mut i: usize = 0;
        proof {
            assert(lv.take(0) =~= Seq::<Seq<char>>::empty());
            assert(files_view(result.files@) =~= Map::<Seq<char>, Seq<AnnotationView>>::empty());
            assert(annos_view(result.dir@) =~= Seq::<AnnotationView>::empty());
        }
        while i < lines.len()
            invariant
                lv == texts_view(lines@),
                lines@.len() < u64::MAX,
                i <= lines@.len(),
                names_unique(result.files@),
                cur matches Some(c) ==> c < result.files@.len(),
                run(start_state(), lv.take(i as int)) == Ok::<ParseState, int>(
                    held_state(last, result.dir@, result.files@, cur, key@, value@),
                ),
            decreases lines@.len() - i,
        {
            let ghost st = held_state(last, result.dir@, result.files@, cur, key@, value@);
            proof {
                lemma_run_one_more(lv, i as int, st);
            }
            let (leader, rest) = extract_line_parts(lines[i].as_str());
            let line_no = (i as u64) + 1;
            let next = match test_leader(last, leader, line_no) {
                Ok(p) => p,
                Err(e) => {
                    return Err(e);
                },
            };
            let ghost t = step(st, lv[i as int])->0;
            if leader == '@' {
                match result.find_file(rest) {
                    Some(j) => {
                        let ghost before = result.files@;
                        let old_entry = result.files.remove(j);
                        let entry = FileEntry { name: old_entry.name, annos: Vec::new() };
                        proof {
                            assert(annos_view(entry.annos@) =~= Seq::<AnnotationView>::empty());
                            assert(before.remove(j as int).insert(j as int, entry) =~= before.update(j as int, entry));
                            lemma_files_view_update(before, j as int, entry);
                        }
                        result.files.insert(j, entry);
                        cur = Some(j);
                        proof {
                            assert(result.files@ == before.update(j as int, entry));
                            assert(result.files@[j as int].name@ == rest@);
                        }
                    },
                    None => {
                        let entry = FileEntry { name: rest.to_owned(), annos: Vec::new() };
                        proof {
                            assert(annos_view(entry.annos@) =~= Seq::<AnnotationView>::empty());
                            lemma_files_view_push(result.files@, entry);
                        }
                        result.files.push(entry);
                        cur = Some(result.files.len() - 1);
                        proof {
                            assert(result.files@[result.files@.len() - 1].name@ == rest@);
                        }
                    },
                }
            } else if leader == '>' {
                key = rest.to_owned();
                value = String::new();
            } else if leader == '=' {
                let ghost old_value = value@;
                proof {
                    reveal_strlit("\n");
                }
                if !value.as_str().is_empty() {
                    value.append("\n");
                }
                value.append(rest);
                proof {
                    assert(value@ =~= join_line(old_value, rest@));
                }
            } else {
                let anno = Annotation { key: key.clone(), value: value.clone(), context: rest.to_owned() };
                match cur {
                    None => {
                        result.dir.push(anno);
                        proof {
                            assert(annos_view(result.dir@) =~= st.dir.push(anno@));
                        }
                    },
                    Some(c) => {
                        proof {
                            lemma_files_view_at(result.files@, c as int);
                        }
                        let ghost before = result.files@;
                        let mut entry = result.files.remove(c);
                        let ghost old_annos = entry.annos@;
                        entry.annos.push(anno);
                        proof {
                            assert(annos_view(entry.annos@) =~= annos_view(old_annos).push(anno@));
                            assert(before.remove(c as int).insert(c as int, entry) =~= before.update(c as int, entry));
                            lemma_files_view_update(before, c as int, entry);
                        }
                        result.files.insert(c, entry);
                    },
                }
            }
            proof {
                assert(leader == leader_of(lv[i as int]));
                assert(rest@ == rest_of(lv[i as int]));
                if leader == '@' {
                    assert(held_state(next, result.dir@, result.files@, cur, key@, value@) == t);
                } else if leader == '>' {
                    assert(held_state(next, result.dir@, result.files@, cur, key@, value@) == t);
                } else if leader == '=' {
                    assert(held_state(next, result.dir@, result.files@, cur, key@, value@) == t);
                } else {
                    assert(held_state(next, result.dir@, result.files@, cur, key@, value@) == t);
                }
            }
            last = next;
            i = i + 1;
            proof {
                assert(held_state(last, result.dir@, result.files@, cur, key@, value@) == t);
            }
        }
        proof {
            assert(lv.take(i as int) =~= lv);
            result.lemma_view();
        }
        if last == Phase::AfterContext {
            Ok(result)
        } else {
            Err(AnnoError::ParseError(lines.len() as u64 + 1, ' '))
        }
    }
}

} // verus!
