//! Unix paths as strings: joining a component onto a path, and splitting a
//! path into its components, as `std::path` does on Unix.

use vstd::prelude::*;
use crate::text::{
    chars_of, find_from, find_from_exec, lemma_find_from_bounds, lemma_find_from_exact, substring,
};

verus! {

broadcast use vstd::string::group_string_axioms;

/// `PathBuf::join` on Unix: an absolute component replaces the path;
/// otherwise a `/` goes between them unless the path is empty or already
/// ends with one.
pub open spec fn path_join(base: Seq<char>, comp: Seq<char>) -> Seq<char> {
    if comp.len() > 0 && comp[0] == '/' {
        comp
    } else if base.len() == 0 || base.last() == '/' {
        base + comp
    } else {
        base + "/"@ + comp
    }
}

/// Join `comp` onto `base`.
pub fn join(base: &str, comp: &str) -> (r: String)
    ensures
        r@ == path_join(base@, comp@),
{
    if !comp.is_empty() && comp.get_char(0) == '/' {
        return String::from_str(comp);
    }
    let n = base.unicode_len();
    let mut r = String::from_str(base);
    if !(n == 0 || base.get_char(n - 1) == '/') {
        r.append("/");
    }
    r.append(comp);
    r
}

/// Length of the first segment of `s` (up to its first `/`).
pub open spec fn seg_len(s: Seq<char>) -> int {
    match find_from(s, '/', 0) {
        Some(k) => k,
        None => s.len() as int,
    }
}

/// The named segments of `s`: its `/`-separated pieces without the empty
/// ones and without `.`.
pub open spec fn segments(s: Seq<char>) -> Seq<Seq<char>>
    decreases s.len(),
{
    if s.len() == 0 {
        Seq::empty()
    } else {
        proof {
            lemma_find_from_bounds(s, '/', 0);
        }
        let n = seg_len(s);
        let seg = s.take(n);
        let rest = if n < s.len() {
            s.skip(n + 1)
        } else {
            Seq::<char>::empty()
        };
        if seg.len() == 0 || seg == "."@ {
            segments(rest)
        } else {
            seq![seg].add(segments(rest))
        }
    }
}

/// `Path::components` on Unix, each component as text: `/` for the root,
/// `.` for a leading current directory, then the named segments.
pub open spec fn components(p: Seq<char>) -> Seq<Seq<char>> {
    if p.len() > 0 && p[0] == '/' {
        seq!["/"@].add(segments(p))
    } else if p == "."@ || (p.len() >= 2 && p[0] == '.' && p[1] == '/') {
        seq!["."@].add(segments(p))
    } else {
        segments(p)
    }
}

proof fn lemma_seg_at(s: Seq<char>, pos: int)
    requires
        0 <= pos < s.len(),
    ensures
        ({
            let n = match find_from(s, '/', pos) {
                Some(k) => k,
                None => s.len() as int,
            };
            let w = s.skip(pos);
            let rest = if n < s.len() {
                s.skip(n + 1)
            } else {
                Seq::<char>::empty()
            };
            &&& pos <= n <= s.len()
            &&& segments(w) == if n == pos || s.subrange(pos, n) == "."@ {
                segments(rest)
            } else {
                seq![s.subrange(pos, n)].add(segments(rest))
            }
        }),
{
    crate::text::lemma_find_from_skip(s, '/', pos, 0);
    lemma_find_from_bounds(s, '/', pos);
    let w = s.skip(pos);
    let n = match find_from(s, '/', pos) {
        Some(k) => k,
        None => s.len() as int,
    };
    assert(seg_len(w) == n - pos);
    assert(w.take(n - pos) == s.subrange(pos, n));
    if n < s.len() {
        assert(w.skip(n - pos + 1) == s.skip(n + 1));
    }
}

/// Joining with a `/` joins the segment lists.
pub proof fn lemma_segments_concat(a: Seq<char>, b: Seq<char>)
    ensures
        segments(a + "/"@ + b) == segments(a) + segments(b),
    decreases a.len(),
{
    reveal_strlit("/");
    reveal_strlit(".");
    let s = a + "/"@ + b;
    assert(s.len() > 0);
    lemma_find_from_bounds(s, '/', 0);
    match find_from(a, '/', 0) {
        Some(k) => {
            lemma_find_from_bounds(a, '/', 0);
            crate::text::lemma_find_from_first(a, '/', 0);
            crate::text::lemma_find_from_exact(s, '/', 0, k);
            assert(seg_len(s) == k);
            assert(s.take(k) == a.take(k));
            let a2 = a.skip(k + 1);
            assert(s.skip(k + 1) == a2 + "/"@ + b);
            lemma_segments_concat(a2, b);
            lemma_find_from_exact(a, '/', 0, k);
            assert(seg_len(a) == k);
            if k + 1 < a.len() {
            } else {
                assert(a2 == Seq::<char>::empty());
            }
            assert(a.skip(k + 1) == a2);
            if a.take(k).len() == 0 || a.take(k) == "."@ {
            } else {
                assert(seq![a.take(k)].add(segments(a2)) + segments(b) == seq![a.take(k)].add(
                    segments(a2) + segments(b),
                ));
            }
        },
        None => {
            crate::text::lemma_find_from_first(a, '/', 0);
            crate::text::lemma_find_from_exact(s, '/', 0, a.len() as int);
            assert(seg_len(s) == a.len());
            assert(s.take(a.len() as int) == a);
            assert(s.skip(a.len() + 1int) == b);
            if a.len() > 0 {
                lemma_find_from_exact(a, '/', 0, a.len() as int);
                assert(a.take(a.len() as int) == a);
                assert(segments(Seq::<char>::empty()) == Seq::<Seq<char>>::empty());
                if a.len() == 0 || a == "."@ {
                } else {
                    assert(segments(a) == seq![a]);
                }
            } else {
                assert(segments(a) == Seq::<Seq<char>>::empty());
            }
        },
    }
}

/// `p` is `.` or starts with `./`: its first component is `.`.
pub open spec fn starts_with_cur_dir(p: Seq<char>) -> bool {
    p == "."@ || (p.len() >= 2 && p[0] == '.' && p[1] == '/')
}

proof fn lemma_segments_empty_and_dot()
    ensures
        segments(Seq::<char>::empty()) == Seq::<Seq<char>>::empty(),
        segments("."@) == Seq::<Seq<char>>::empty(),
{
    reveal_strlit(".");
    let d = "."@;
    lemma_find_from_exact(d, '/', 0, 1);
    assert(d.take(1) == d);
    assert(segments(Seq::<char>::empty()) == Seq::<Seq<char>>::empty());
}

/// Joining a relative component onto a path adds the component's segments
/// to the path's components (for an empty path, when the component does
/// not start with `.` as its own component).
pub proof fn lemma_components_join(base: Seq<char>, comp: Seq<char>)
    requires
        !(comp.len() > 0 && comp[0] == '/'),
        base.len() > 0 || !starts_with_cur_dir(comp),
    ensures
        components(path_join(base, comp)) == components(base) + segments(comp),
{
    reveal_strlit("/");
    reveal_strlit(".");
    lemma_segments_empty_and_dot();
    let j = path_join(base, comp);
    if base.len() == 0 {
        assert(j == comp);
        assert(components(base) == Seq::<Seq<char>>::empty());
        assert(Seq::<Seq<char>>::empty() + segments(comp) == segments(comp));
        return;
    }
    if base.last() == '/' {
        let a = base.drop_last();
        assert(base == a + "/"@ + Seq::<char>::empty());
        lemma_segments_concat(a, Seq::<char>::empty());
        assert(j == a + "/"@ + comp);
        lemma_segments_concat(a, comp);
        assert(segments(base) == segments(a));
        assert(j =~= base + comp);
    } else {
        assert(j == base + "/"@ + comp);
        lemma_segments_concat(base, comp);
    }
    assert(segments(j) == segments(base) + segments(comp));
    assert(j[0] == base[0]);
    assert(j.len() >= base.len());
    if base.len() >= 2 {
        assert(j[1] == base[1]);
    } else if base.last() != '/' {
        assert(j[1] == '/');
    }
    if base[0] == '/' {
        assert(seq!["/"@].add(segments(base) + segments(comp)) == seq!["/"@].add(segments(base))
            + segments(comp));
    } else if starts_with_cur_dir(base) {
        assert(starts_with_cur_dir(j));
        assert(j != "."@);
        if base == "."@ {
            assert(segments(base) == Seq::<Seq<char>>::empty());
        }
        assert(seq!["."@].add(segments(base) + segments(comp)) == seq!["."@].add(segments(base))
            + segments(comp));
    } else {
        if base.len() == 1 {
            assert(base.last() == base[0]);
            assert(base[0] != '.') by {
                if base[0] == '.' {
                    assert(base =~= "."@);
                }
            }
            assert(j.len() >= 2);
        }
        assert(j != "."@) by {
            if j == "."@ {
                assert(j.len() == 1);
            }
        }
        assert(!starts_with_cur_dir(j));
    }
}

/// The segments of a name without `/` that is neither empty nor `.`.
pub proof fn lemma_segments_name(name: Seq<char>)
    requires
        name.len() > 0,
        name != "."@,
        forall|i: int| 0 <= i < name.len() ==> name[i] != '/',
    ensures
        segments(name) == seq![name],
{
    lemma_find_from_exact(name, '/', 0, name.len() as int);
    assert(name.take(name.len() as int) == name);
    assert(segments(Seq::<char>::empty()) == Seq::<Seq<char>>::empty());
}

/// The components of `p`.
pub fn path_components(p: &str) -> (r: Vec<String>)
    ensures
        r@.len() == components(p@).len(),
        forall|i: int| 0 <= i < r@.len() ==> #[trigger] r@[i]@ == components(p@)[i],
{
    let v = chars_of(p);
    let dot = chars_of(".");
    let mut out: Vec<String> = Vec::new();
    let ghost head: Seq<Seq<char>>;
    if v.len() > 0 && v[0] == '/' {
        out.push(String::from_str("/"));
        proof {
            head = seq!["/"@];
        }
    } else if (v.len() == 1 && v[0] == '.') || (v.len() >= 2 && v[0] == '.' && v[1] == '/') {
        out.push(String::from_str("."));
        proof {
            head = seq!["."@];
            reveal_strlit(".");
            if v.len() == 1 {
                assert(p@ == "."@);
            } else {
                assert(p@ != "."@);
            }
        }
    } else {
        proof {
            head = Seq::empty();
            reveal_strlit(".");
            if p@ == "."@ {
                assert(v@[0] == '.');
            }
        }
    }
    assert(components(p@) == head.add(segments(v@)));
    assert(v@.skip(0) == v@);
    let mut pos: usize = 0;
    while pos < v.len()
        invariant
            v@ == p@,
            dot@ == "."@,
            pos <= v.len(),
            head.add(segments(v@)) == out@.map_values(|s: String| s@).add(
                segments(v@.skip(pos as int)),
            ),
        decreases v.len() - pos,
    {
        proof {
            lemma_seg_at(v@, pos as int);
        }
        let n = match find_from_exec(&v, '/', pos) {
            Some(k) => k,
            None => v.len(),
        };
        proof {
            lemma_find_from_bounds(v@, '/', pos as int);
        }
        let next = if n < v.len() {
            n + 1
        } else {
            v.len()
        };
        proof {
            if n >= v.len() {
                assert(v@.skip(next as int) == Seq::<char>::empty());
            }
        }
        let ghost before = out@;
        if !(n == pos || crate::text::eq_in(&v, pos, n, &dot)) {
            out.push(substring(p, pos, n));
            proof {
                assert(out@.map_values(|s: String| s@) == before.map_values(|s: String| s@).push(
                    v@.subrange(pos as int, n as int),
                ));
                let seg = v@.subrange(pos as int, n as int);
                let tail = segments(v@.skip(next as int));
                assert(seq![seg].add(tail) == seq![seg] + tail);
                assert(before.map_values(|s: String| s@).add(seq![seg].add(tail))
                    == before.map_values(|s: String| s@).push(seg).add(tail));
            }
        }
        pos = next;
    }
    proof {
        assert(v@.skip(pos as int).len() == 0);
        assert(segments(v@.skip(pos as int)) == Seq::<Seq<char>>::empty());
        assert(out@.map_values(|s: String| s@).add(Seq::<Seq<char>>::empty()) == out@.map_values(
            |s: String| s@,
        ));
        assert forall|i: int| 0 <= i < out@.len() implies #[trigger] out@[i]@ == components(
            p@,
        )[i] by {
            assert(out@.map_values(|s: String| s@)[i] == out@[i]@);
        }
    }
    out
}

} // verus!
