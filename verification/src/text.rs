//! The textual interchange form of the algebra, parsed by verified code over
//! bytes: comma-separated attribute names, `"left -> right"` dependencies,
//! and one dependency per line for a dependency set.

use vstd::prelude::*;

use crate::attribute::Attribute;
use crate::attribute_set::AttributeSet;
use crate::dependency::Dependency;
use crate::dependency_set::DependencySet;

verus! {

/// ASCII whitespace, as trimmed from attribute names and dependency lines.
pub open spec fn is_space(b: u8) -> bool {
    b == 32 || b == 9 || b == 10 || b == 13
}

/// The byte string without its leading whitespace.
pub open spec fn trim_front(s: Seq<u8>) -> Seq<u8>
    decreases s.len(),
{
    if s.len() > 0 && is_space(s[0]) {
        trim_front(s.skip(1))
    } else {
        s
    }
}

/// The byte string without its trailing whitespace.
pub open spec fn trim_back(s: Seq<u8>) -> Seq<u8>
    decreases s.len(),
{
    if s.len() > 0 && is_space(s.last()) {
        trim_back(s.drop_last())
    } else {
        s
    }
}

/// The byte string without surrounding whitespace.
pub open spec fn trimmed(s: Seq<u8>) -> Seq<u8> {
    trim_back(trim_front(s))
}

/// The position of the first occurrence of `b`, or the length when absent.
pub open spec fn first_byte(s: Seq<u8>, b: u8) -> int
    decreases s.len(),
{
    if s.len() == 0 {
        0
    } else if s[0] == b {
        0
    } else {
        1 + first_byte(s.skip(1), b)
    }
}

/// What `first_byte` finds: nothing before it, and `b` at it unless absent.
pub proof fn lemma_first_byte(s: Seq<u8>, b: u8)
    ensures
        0 <= first_byte(s, b) <= s.len(),
        forall|j: int| 0 <= j < first_byte(s, b) ==> s[j] != b,
        first_byte(s, b) < s.len() ==> s[first_byte(s, b)] == b,
    decreases s.len(),
{
    if s.len() == 0 {
    } else if s[0] == b {
    } else {
        lemma_first_byte(s.skip(1), b);
        assert forall|j: int| 0 <= j < first_byte(s, b) implies s[j] != b by {
            if j > 0 {
                assert(s.skip(1)[j - 1] != b);
            }
        }
    }
}

/// Leading whitespace of length `a` makes `trim_front` a suffix.
pub proof fn lemma_trim_front_at(s: Seq<u8>, a: int)
    requires
        0 <= a <= s.len(),
        forall|j: int| 0 <= j < a ==> is_space(#[trigger] s[j]),
        a == s.len() || !is_space(s[a]),
    ensures
        trim_front(s) == s.skip(a),
    decreases a,
{
    if a == 0 {
        assert(s.skip(0) =~= s);
    } else {
        lemma_trim_front_at(s.skip(1), a - 1);
        assert(s.skip(1).skip(a - 1) =~= s.skip(a));
    }
}

/// Trailing whitespace from position `b` on makes `trim_back` a prefix.
pub proof fn lemma_trim_back_at(s: Seq<u8>, b: int)
    requires
        0 <= b <= s.len(),
        forall|j: int| b <= j < s.len() ==> is_space(#[trigger] s[j]),
        b == 0 || !is_space(s[b - 1]),
    ensures
        trim_back(s) == s.take(b),
    decreases s.len(),
{
    if b == s.len() {
        if s.len() > 0 {
            assert(!is_space(s.last()));
        }
        assert(s.take(b) =~= s);
    } else {
        assert(is_space(s.last()));
        lemma_trim_back_at(s.drop_last(), b);
        assert(s.drop_last().take(b) =~= s.take(b));
    }
}

/// Whether the byte is ASCII whitespace.
pub fn is_space_byte(b: u8) -> (r: bool)
    ensures
        r == is_space(b),
{
    b == 32 || b == 9 || b == 10 || b == 13
}

/// A fresh copy of the byte range `[from, to)`.
pub fn copy_range(v: &Vec<u8>, from: usize, to: usize) -> (r: Vec<u8>)
    requires
        from <= to <= v@.len(),
    ensures
        r@ == v@.subrange(from as int, to as int),
{
    let mut r: Vec<u8> = Vec::new();
    let mut i: usize = from;
    while i < to
        invariant
            from <= i <= to <= v@.len(),
            r@ == v@.subrange(from as int, i as int),
        decreases to - i,
    {
        r.push(v[i]);
        assert(r@ =~= v@.subrange(from as int, i as int + 1));
        i += 1;
    }
    r
}

/// The byte string without surrounding ASCII whitespace.
pub fn trim_bytes(v: &Vec<u8>) -> (r: Vec<u8>)
    ensures
        r@ == trimmed(v@),
{
    let n: usize = v.len();
    let mut a: usize = 0;
    while a < n && is_space_byte(v[a])
        invariant
            a <= n,
            n == v@.len(),
            forall|j: int| 0 <= j < a ==> is_space(#[trigger] v@[j]),
        decreases n - a,
    {
        a += 1;
    }
    let mut b: usize = n;
    while b > a && is_space_byte(v[b - 1])
        invariant
            a <= b <= n,
            n == v@.len(),
            forall|j: int| b <= j < n ==> is_space(#[trigger] v@[j]),
        decreases b,
    {
        b -= 1;
    }
    let r = copy_range(v, a, b);
    proof {
        lemma_trim_front_at(v@, a as int);
        let t = v@.skip(a as int);
        assert forall|j: int| b - a <= j < t.len() implies is_space(#[trigger] t[j]) by {
            assert(is_space(v@[j + a]));
        }
        if b > a {
            assert(!is_space(t[b - a - 1]));
        }
        lemma_trim_back_at(t, b - a);
        assert(t.take(b - a) =~= v@.subrange(a as int, b as int));
    }
    r
}

/// The position of the first `"->"` pair, or the length when absent.
pub open spec fn first_arrow(s: Seq<u8>) -> int
    decreases s.len(),
{
    if s.len() < 2 {
        s.len() as int
    } else if s[0] == 45 && s[1] == 62 {
        0
    } else {
        1 + first_arrow(s.skip(1))
    }
}

/// What `first_arrow` finds: no pair before it, and `"->"` at it unless
/// absent.
pub proof fn lemma_first_arrow(s: Seq<u8>)
    ensures
        0 <= first_arrow(s) <= s.len(),
        first_arrow(s) < s.len() ==> first_arrow(s) + 1 < s.len() && s[first_arrow(s)] == 45
            && s[first_arrow(s) + 1] == 62,
        forall|j: int|
            0 <= j < first_arrow(s) && j + 1 < s.len() ==> !(s[j] == 45 && #[trigger] s[j + 1]
                == 62),
    decreases s.len(),
{
    if s.len() < 2 {
    } else if s[0] == 45 && s[1] == 62 {
    } else {
        lemma_first_arrow(s.skip(1));
        assert forall|j: int|
            0 <= j < first_arrow(s) && j + 1 < s.len() implies !(s[j] == 45 && #[trigger] s[j + 1]
            == 62) by {
            if j > 0 {
                assert(s.skip(1)[j - 1] == s[j] && s.skip(1)[j] == s[j + 1]);
            }
        }
    }
}

/// The attribute names of the comma-separated form: each comma-delimited
/// segment, trimmed.
pub open spec fn attr_set_of(s: Seq<u8>) -> Set<Seq<u8>>
    decreases s.len(),
{
    let i = first_byte(s, 44);
    if 0 <= i < s.len() {
        attr_set_of(s.skip(i + 1)).insert(trimmed(s.take(i)))
    } else {
        Set::empty().insert(trimmed(s))
    }
}

/// Whether the trimmed line carries an arrow separator.
pub open spec fn has_arrow(l: Seq<u8>) -> bool {
    first_arrow(trimmed(l)) < trimmed(l).len()
}

/// The dependency a line denotes: the attribute sets before the first arrow
/// and between the first and second arrows.
pub open spec fn dep_of(l: Seq<u8>) -> (Set<Seq<u8>>, Set<Seq<u8>>) {
    let t = trimmed(l);
    let i = first_arrow(t);
    let rest = t.skip(i + 2);
    (attr_set_of(t.take(i)), attr_set_of(rest.take(first_arrow(rest))))
}

/// Whether the line is whitespace only.
pub open spec fn is_blank(l: Seq<u8>) -> bool {
    trimmed(l).len() == 0
}

/// Whether every line of the text is blank or carries an arrow.
pub open spec fn lines_ok(s: Seq<u8>) -> bool
    decreases s.len(),
{
    let i = first_byte(s, 10);
    if 0 <= i < s.len() {
        (is_blank(s.take(i)) || has_arrow(s.take(i))) && lines_ok(s.skip(i + 1))
    } else {
        is_blank(s) || has_arrow(s)
    }
}

/// The dependencies of the text, one per non-blank line.
pub open spec fn deps_of(s: Seq<u8>) -> Set<(Set<Seq<u8>>, Set<Seq<u8>>)>
    decreases s.len(),
{
    let i = first_byte(s, 10);
    if 0 <= i < s.len() {
        if is_blank(s.take(i)) {
            deps_of(s.skip(i + 1))
        } else {
            deps_of(s.skip(i + 1)).insert(dep_of(s.take(i)))
        }
    } else {
        if is_blank(s) {
            Set::empty()
        } else {
            Set::empty().insert(dep_of(s))
        }
    }
}

/// Parses the comma-separated attribute-set form, e.g. `"A, B, C"`. Every
/// input parses; an empty input denotes the set of one empty name.
pub fn parse_attribute_set(v: &Vec<u8>) -> (r: AttributeSet)
    ensures
        r.wf(),
        r@ == attr_set_of(v@),
    decreases v@.len(),
{
    let n: usize = v.len();
    let mut i: usize = 0;
    while i < n && v[i] != 44
        invariant
            i <= n,
            n == v@.len(),
            forall|j: int| 0 <= j < i ==> v@[j] != 44,
        decreases n - i,
    {
        i += 1;
    }
    proof {
        lemma_first_byte(v@, 44);
        if i < n {
            assert(first_byte(v@, 44) == i);
        } else {
            assert(first_byte(v@, 44) == n);
        }
    }
    if i == n {
        let t = trim_bytes(v);
        let mut r = AttributeSet::new();
        r.insert(Attribute::new(t));
        r
    } else {
        let rest = copy_range(v, i + 1, n);
        let mut r = parse_attribute_set(&rest);
        let prefix = copy_range(v, 0, i);
        let t = trim_bytes(&prefix);
        r.insert(Attribute::new(t));
        proof {
            assert(rest@ =~= v@.skip(i as int + 1));
            assert(prefix@ =~= v@.take(i as int));
        }
        r
    }
}

/// Parses the dependency form `"<left> -> <right>"`; fails exactly when the
/// arrow separator is absent. Anything after a second arrow is ignored.
pub fn parse_dependency(v: &Vec<u8>) -> (r: Option<Dependency>)
    ensures
        r.is_some() == has_arrow(v@),
        r matches Some(d) ==> d.wf() && d@ == dep_of(v@),
{
    let t = trim_bytes(v);
    let n: usize = t.len();
    let n1: usize = if n == 0 {
        0
    } else {
        n - 1
    };
    let mut i: usize = 0;
    while i < n1 && !(t[i] == 45 && t[i + 1] == 62)
        invariant
            n == t@.len(),
            n1 == if n == 0 { 0int } else { n - 1 },
            i <= n1,
            forall|j: int| 0 <= j < i ==> !(t@[j] == 45 && #[trigger] t@[j + 1] == 62),
        decreases n1 - i,
    {
        i += 1;
    }
    proof {
        lemma_first_arrow(t@);
        if i < n1 {
            assert(first_arrow(t@) == i);
        } else {
            assert(first_arrow(t@) == n) by {
                if first_arrow(t@) < n {
                    assert(first_arrow(t@) >= i);
                }
            }
        }
    }
    if i < n1 {
        let left = copy_range(&t, 0, i);
        let rest = copy_range(&t, i + 2, n);
        let rn: usize = rest.len();
        let rn1: usize = if rn == 0 {
            0
        } else {
            rn - 1
        };
        let mut k: usize = 0;
        while k < rn1 && !(rest[k] == 45 && rest[k + 1] == 62)
            invariant
                rn == rest@.len(),
                rn1 == if rn == 0 { 0int } else { rn - 1 },
                k <= rn1,
                forall|j: int| 0 <= j < k ==> !(rest@[j] == 45 && #[trigger] rest@[j + 1] == 62),
            decreases rn1 - k,
        {
            k += 1;
        }
        proof {
            lemma_first_arrow(rest@);
            if k < rn1 {
                assert(first_arrow(rest@) == k);
            } else {
                assert(first_arrow(rest@) == rn) by {
                    if first_arrow(rest@) < rn {
                        assert(first_arrow(rest@) >= k);
                    }
                }
            }
        }
        let end: usize = if k < rn1 {
            k
        } else {
            rn
        };
        let right = copy_range(&rest, 0, end);
        let d = Dependency::from_set_pair(
            (parse_attribute_set(&left), parse_attribute_set(&right)),
        );
        proof {
            assert(left@ =~= t@.take(i as int));
            assert(rest@ =~= t@.skip(i as int + 2));
            assert(right@ =~= rest@.take(first_arrow(rest@)));
        }
        Some(d)
    } else {
        None
    }
}

/// Parses one dependency per line, ignoring blank lines; fails exactly when
/// some non-blank line lacks an arrow, with no partial result.
pub fn parse_dependency_set(v: &Vec<u8>) -> (r: Option<DependencySet>)
    ensures
        r.is_some() == lines_ok(v@),
        r matches Some(ds) ==> ds.wf() && ds@ == deps_of(v@),
    decreases v@.len(),
{
    let n: usize = v.len();
    let mut i: usize = 0;
    while i < n && v[i] != 10
        invariant
            i <= n,
            n == v@.len(),
            forall|j: int| 0 <= j < i ==> v@[j] != 10,
        decreases n - i,
    {
        i += 1;
    }
    proof {
        lemma_first_byte(v@, 10);
        if i < n {
            assert(first_byte(v@, 10) == i);
        } else {
            assert(first_byte(v@, 10) == n);
        }
    }
    if i == n {
        let t = trim_bytes(v);
        if t.len() == 0 {
            Some(DependencySet::new())
        } else {
            match parse_dependency(v) {
                Some(d) => {
                    let mut ds = DependencySet::new();
                    ds.insert(d);
                    Some(ds)
                },
                None => None,
            }
        }
    } else {
        let first = copy_range(v, 0, i);
        let rest = copy_range(v, i + 1, n);
        proof {
            assert(first@ =~= v@.take(i as int));
            assert(rest@ =~= v@.skip(i as int + 1));
        }
        match parse_dependency_set(&rest) {
            Some(mut ds) => {
                let t = trim_bytes(&first);
                if t.len() == 0 {
                    Some(ds)
                } else {
                    match parse_dependency(&first) {
                        Some(d) => {
                            ds.insert(d);
                            Some(ds)
                        },
                        None => None,
                    }
                }
            },
            None => None,
        }
    }
}

} // verus!
