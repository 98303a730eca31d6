use vstd::prelude::*;

verus! {

/// The text with any trailing separators removed.
pub open spec fn strip_trailing_seps(p: Seq<char>) -> Seq<char>
    decreases p.len(),
{
    if p.len() > 0 && p[p.len() - 1] == '/' {
        strip_trailing_seps(p.take(p.len() - 1))
    } else {
        p
    }
}

/// The text with its final run of non-separator characters removed.
pub open spec fn strip_last_component(p: Seq<char>) -> Seq<char>
    decreases p.len(),
{
    if p.len() > 0 && p[p.len() - 1] != '/' {
        strip_last_component(p.take(p.len() - 1))
    } else {
        p
    }
}

/// The parent directory of a slash-separated path: trailing separators
/// are ignored, then the last component is dropped together with the
/// run of separators before it.  A path of one bare component has the
/// empty parent; one whose single component is led by separators has
/// the root.
pub open spec fn dirname_of(p: Seq<char>) -> Seq<char> {
    let trimmed = strip_trailing_seps(p);
    let kept = strip_trailing_seps(strip_last_component(trimmed));
    if kept.len() == 0 && strip_last_component(trimmed).len() > 0 {
        seq!['/']
    } else {
        kept
    }
}

/// A relative path joined onto a directory: an absolute relative path
/// replaces the directory, an empty directory contributes nothing, and
/// otherwise the two are joined with a single separator.
pub open spec fn joined_path(dir: Seq<char>, rel: Seq<char>) -> Seq<char> {
    if rel.len() > 0 && rel[0] == '/' {
        rel
    } else if dir.len() == 0 {
        rel
    } else if dir[dir.len() - 1] == '/' {
        dir + rel
    } else {
        dir + seq!['/'] + rel
    }
}

proof fn lemma_strip_trailing_at(p: Seq<char>, e: int)
    requires
        0 <= e <= p.len(),
        forall|l: int| e <= l < p.len() ==> p[l] == '/',
        e == 0 || p[e - 1] != '/',
    ensures
        strip_trailing_seps(p) == p.take(e),
    decreases p.len(),
{
    if e == p.len() {
        assert(p.take(e) =~= p);
    } else {
        assert(p[p.len() - 1] == '/');
        assert(forall|l: int| e <= l < p.take(p.len() - 1).len()
            ==> #[trigger] p.take(p.len() - 1)[l] == '/');
        lemma_strip_trailing_at(p.take(p.len() - 1), e);
        assert(p.take(p.len() - 1).take(e) =~= p.take(e));
    }
}

proof fn lemma_strip_component_at(p: Seq<char>, c: int)
    requires
        0 <= c <= p.len(),
        forall|l: int| c <= l < p.len() ==> p[l] != '/',
        c == 0 || p[c - 1] == '/',
    ensures
        strip_last_component(p) == p.take(c),
    decreases p.len(),
{
    if c == p.len() {
        assert(p.take(c) =~= p);
    } else {
        assert(p[p.len() - 1] != '/');
        assert(forall|l: int| c <= l < p.take(p.len() - 1).len()
            ==> #[trigger] p.take(p.len() - 1)[l] != '/');
        lemma_strip_component_at(p.take(p.len() - 1), c);
        assert(p.take(p.len() - 1).take(c) =~= p.take(c));
    }
}

/// The path of a file beside the given one: the parent directory of
/// `file_path` joined with `relative_path`, with '/' as the one
/// separator.
#[verifier::loop_isolation(false)]
pub fn get_path(file_path: &str, relative_path: &str) -> (r: String)
    ensures
        r@ == joined_path(dirname_of(file_path@), relative_path@),
{
    let n = file_path.unicode_len();
    let mut e: usize = n;
    while e > 0 && file_path.get_char(e - 1) == '/'
        invariant
            e <= n,
            n == file_path@.len(),
            forall|l: int| e <= l < n ==> file_path@[l] == '/',
        decreases e,
    {
        e -= 1;
    }
    let mut c: usize = e;
    while c > 0 && file_path.get_char(c - 1) != '/'
        invariant
            c <= e,
            forall|l: int| c <= l < e ==> file_path@[l] != '/',
        decreases c,
    {
        c -= 1;
    }
    let mut j: usize = c;
    while j > 0 && file_path.get_char(j - 1) == '/'
        invariant
            j <= c,
            forall|l: int| j <= l < c ==> file_path@[l] == '/',
        decreases j,
    {
        j -= 1;
    }
    proof {
        let p = file_path@;
        lemma_strip_trailing_at(p, e as int);
        assert(forall|l: int| c <= l < p.take(e as int).len()
            ==> #[trigger] p.take(e as int)[l] != '/');
        lemma_strip_component_at(p.take(e as int), c as int);
        assert(p.take(e as int).take(c as int) =~= p.take(c as int));
        assert(forall|l: int| j <= l < p.take(c as int).len()
            ==> #[trigger] p.take(c as int)[l] == '/');
        lemma_strip_trailing_at(p.take(c as int), j as int);
        assert(p.take(c as int).take(j as int) =~= p.take(j as int));
    }
    let dir: &str = if c == 0 {
        ""
    } else if j == 0 {
        "/"
    } else {
        file_path.substring_char(0, j)
    };
    proof {
        reveal_strlit("");
        reveal_strlit("/");
        assert("/"@ =~= seq!['/']);
        if c > 0 && j > 0 {
            assert(dir@ =~= file_path@.take(j as int));
        }
        assert(dir@ == dirname_of(file_path@));
    }
    let rn = relative_path.unicode_len();
    if rn > 0 && relative_path.get_char(0) == '/' {
        return relative_path.to_owned();
    }
    let dn = dir.unicode_len();
    if dn == 0 {
        return relative_path.to_owned();
    }
    let mut out: String = dir.to_owned();
    if dir.get_char(dn - 1) != '/' {
        out.append("/");
    }
    out.append(relative_path);
    out
}

} // verus!
