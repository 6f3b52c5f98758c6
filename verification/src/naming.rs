//! Fully qualified protobuf names: joining a scope with a name, the absolute
//! (dot-prefixed) form of a name, and the scope that encloses a name.
use vstd::prelude::*;
use vstd::string::*;

verus! {

/// The character that separates the components of a qualified name.
pub open spec fn is_dot(c: char) -> bool {
    c == '.'
}

/// `s` has no `.` in it: it is a single name component.
pub open spec fn dot_free(s: Seq<char>) -> bool {
    forall|i: int| 0 <= i < s.len() ==> s[i] != '.'
}

/// `name` qualified by `scope`: `scope.name`, or `name` alone in the empty scope.
pub open spec fn spec_make_name(scope: Seq<char>, name: Seq<char>) -> Seq<char> {
    if scope.len() == 0 {
        name
    } else {
        scope + seq!['.'] + name
    }
}

/// The absolute form of `name` in `scope`: a leading `.` before the qualified name.
pub open spec fn spec_make_absolute_name(scope: Seq<char>, name: Seq<char>) -> Seq<char> {
    seq!['.'] + spec_make_name(scope, name)
}

/// Index of the last `.` in `s`, or -1 when there is none.
pub open spec fn last_dot(s: Seq<char>) -> int
    decreases s.len(),
{
    if s.len() == 0 {
        -1
    } else if s.last() == '.' {
        s.len() - 1
    } else {
        last_dot(s.drop_last())
    }
}

/// The scope that encloses `name`: everything before its last `.`, or the
/// empty scope when `name` has no `.`.
pub open spec fn spec_parse_namespace(name: Seq<char>) -> Seq<char> {
    let i = last_dot(name);
    if i < 0 {
        Seq::empty()
    } else {
        name.take(i)
    }
}

pub proof fn lemma_last_dot(s: Seq<char>)
    ensures
        -1 <= last_dot(s) < s.len(),
        last_dot(s) >= 0 ==> s[last_dot(s)] == '.',
        forall|j: int| last_dot(s) < j < s.len() ==> s[j] != '.',
    decreases s.len(),
{
    if s.len() > 0 && s.last() != '.' {
        lemma_last_dot(s.drop_last());
        assert forall|j: int| last_dot(s) < j < s.len() implies s[j] != '.' by {
            if j < s.len() - 1 {
                assert(s.drop_last()[j] == s[j]);
            }
        }
    }
}

/// The last `.` of `a` followed by a dot-free `b` is the last `.` of `a + b`.
pub proof fn lemma_last_dot_append_dot_free(a: Seq<char>, b: Seq<char>)
    requires
        dot_free(b),
    ensures
        last_dot(a + b) == last_dot(a),
    decreases b.len(),
{
    if b.len() == 0 {
        assert(a + b =~= a);
    } else {
        assert((a + b).drop_last() =~= a + b.drop_last());
        assert((a + b).last() == b.last());
        lemma_last_dot_append_dot_free(a, b.drop_last());
    }
}

/// Leaving a scope undoes entering it: the enclosing scope of `scope.name`
/// is `scope`, for every single-component `name`.
pub proof fn lemma_parse_namespace_of_make_name(scope: Seq<char>, name: Seq<char>)
    requires
        dot_free(name),
    ensures
        spec_parse_namespace(spec_make_name(scope, name)) == scope,
{
    if scope.len() == 0 {
        lemma_last_dot_append_dot_free(Seq::empty(), name);
        assert(Seq::<char>::empty() + name =~= name);
    } else {
        let s = scope + seq!['.'];
        assert(last_dot(s) == scope.len()) by {
            assert(s.last() == '.');
        }
        lemma_last_dot_append_dot_free(s, name);
        assert(spec_make_name(scope, name) =~= s + name);
        assert((s + name).take(scope.len() as int) =~= scope);
    }
}

/// The enclosing scope of a non-empty name is strictly shorter than the name.
pub proof fn lemma_parse_namespace_shorter(name: Seq<char>)
    requires
        name.len() > 0,
    ensures
        spec_parse_namespace(name).len() < name.len(),
{
    lemma_last_dot(name);
}

/// Qualifies `name` by `namespace`: `namespace.name`, or `name` alone when
/// the namespace is empty.
pub fn make_name(namespace: &str, name: &str) -> (res: String)
    ensures
        res@ == spec_make_name(namespace@, name@),
{
    if namespace.is_empty() {
        String::from_str(name)
    } else {
        let mut res = String::from_str(namespace);
        res.append(".");
        res.append(name);
        proof {
            reveal_strlit(".");
        }
        res
    }
}

/// The absolute form of `name` in `namespace`, with a leading `.`.
pub fn make_absolute_name(namespace: &str, name: &str) -> (res: String)
    ensures
        res@ == spec_make_absolute_name(namespace@, name@),
{
    let mut res = String::from_str(".");
    let rest = make_name(namespace, name);
    res.append(rest.as_str());
    proof {
        reveal_strlit(".");
    }
    res
}

/// Index of the last `.` in `s`, if any.
pub fn rfind_dot(s: &str) -> (res: Option<usize>)
    ensures
        match res {
            Some(i) => i == last_dot(s@),
            None => last_dot(s@) == -1,
        },
{
    proof {
        lemma_last_dot(s@);
    }
    let len = s.unicode_len();
    let mut i = len;
    while i > 0
        invariant
            len == s@.len(),
            i <= len,
            forall|j: int| i <= j < len ==> s@[j] != '.',
            -1 <= last_dot(s@) < len,
            last_dot(s@) >= 0 ==> s@[last_dot(s@)] == '.',
            forall|j: int| last_dot(s@) < j < s@.len() ==> s@[j] != '.',
        decreases i,
    {
        if s.get_char(i - 1) == '.' {
            return Some(i - 1);
        }
        i = i - 1;
    }
    None
}

/// The scope that encloses `name`: the part before its last `.`, or `""`.
pub fn parse_namespace(name: &str) -> (res: &str)
    ensures
        res@ == spec_parse_namespace(name@),
{
    match rfind_dot(name) {
        Some(i) => {
            proof {
                lemma_last_dot(name@);
            }
            name.substring_char(0, i)
        },
        None => {
            proof {
                reveal_strlit("");
            }
            ""
        },
    }
}

} // verus!
