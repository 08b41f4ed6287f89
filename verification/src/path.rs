//! Path strings.  A path is a sequence of tokens, matched greedily left to
//! right: `..` moves to the parent (an optional `/` may follow), `#` followed
//! by digits is a list index (an optional `/` may follow), and any other run
//! of characters other than `#` and `/` is a map key (an optional `/` may
//! follow).  Characters that start no token are skipped.  A leading `/`
//! re-roots resolution at the tree root instead of the current focus.
use vstd::prelude::*;

use crate::access_key::{AccessKey, KeyModel};
use crate::focus::{kids_lookup, lemma_path_agree, Focus, FocusTree};
use crate::text::{
    chars_of,
    char_is_digit,
    count_digits,
    count_name,
    digit_val,
    digits_val,
    is_digit,
    is_name_char,
    push_dec_int,
    render_int,
    string_from_chars,
};

verus! {

/// A `#`-index segment did not fit a machine integer.  `underlying` carries
/// the offending digit run.
#[derive(Debug, Clone)]
pub struct PathParsingError {
    pub path: String,
    pub underlying: String,
}

/// A `..` segment tried to move above the root.
#[derive(Debug, Clone)]
pub struct OverFocusError {
    pub path: String,
}

#[derive(Debug, Clone)]
pub enum AccessPathError {
    OverFocus(OverFocusError),
    Parsing(PathParsingError),
}

/// One token of a path string.
pub enum PathToken {
    Up,
    IdxTok(int),
    NameTok(Seq<char>),
}

/// How resolving a token sequence can fail.
pub enum PathErr {
    OverRoot,
    BadIndex,
}

/// The position after an optional `/` at `j`, clamped into the string.
pub open spec fn advance(s: Seq<char>, j: int) -> int {
    let k = if 0 <= j < s.len() && s[j] == '/' {
        j + 1
    } else {
        j
    };
    if k > s.len() {
        s.len() as int
    } else {
        k
    }
}

/// The tokens of a path string from position `i` on, matched greedily.
pub open spec fn scan_from(s: Seq<char>, i: int) -> Seq<PathToken>
    decreases s.len() - i,
{
    if i < 0 || i >= s.len() {
        Seq::empty()
    } else if s[i] == '.' && i + 1 < s.len() && s[i + 1] == '.' {
        seq![PathToken::Up] + scan_from(s, advance(s, i + 2))
    } else if s[i] == '#' && i + 1 < s.len() && is_digit(s[i + 1]) {
        let d = count_digits(s, i + 1);
        seq![PathToken::IdxTok(digits_val(s.subrange(i + 1, i + 1 + d)))] + scan_from(
            s,
            advance(s, i + 1 + d),
        )
    } else if s[i] == '#' || s[i] == '/' {
        scan_from(s, i + 1)
    } else {
        let d = count_name(s, i);
        seq![PathToken::NameTok(s.subrange(i, i + d))] + scan_from(s, advance(s, i + d))
    }
}

/// Resolve tokens against a key path, left to right: `..` drops the last key
/// (an error at the empty path), an index must fit a machine integer, and a
/// key is appended.
pub open spec fn resolve_toks(base: Seq<KeyModel>, toks: Seq<PathToken>) -> Result<
    Seq<KeyModel>,
    PathErr,
>
    decreases toks.len(),
{
    if toks.len() == 0 {
        Result::Ok(base)
    } else {
        match toks[0] {
            PathToken::Up => {
                if base.len() == 0 {
                    Result::Err(PathErr::OverRoot)
                } else {
                    resolve_toks(base.drop_last(), toks.drop_first())
                }
            },
            PathToken::IdxTok(v) => {
                if v > isize::MAX as int {
                    Result::Err(PathErr::BadIndex)
                } else {
                    resolve_toks(base.push(KeyModel::Idx(v)), toks.drop_first())
                }
            },
            PathToken::NameTok(nm) => resolve_toks(base.push(KeyModel::Name(nm)), toks.drop_first()),
        }
    }
}

/// What a path string denotes against a base path.
pub open spec fn resolve_path_chars(base: Seq<KeyModel>, s: Seq<char>) -> Result<
    Seq<KeyModel>,
    PathErr,
> {
    resolve_toks(base, scan_from(s, 0))
}

/// The second arena extends the first: it has at least the same slots, and
/// agrees with it on their parent links and keys (so on their paths).
pub open spec fn extends(a: FocusTree, b: FocusTree) -> bool {
    &&& a.n() <= b.n()
    &&& forall|i: int|
        0 <= i < a.n() ==> (#[trigger] b.rec(i)).parent == a.rec(i).parent && b.rec(i).key@
            == a.rec(i).key@
}

/// One token scanned from a path string.
pub enum Scanned {
    UpTok,
    IdxOk(isize),
    IdxOver(String),
    NameOk(String),
    SkipTok,
}

/// Scan one token (or one skipped character) at position `i`.
fn next_token(cs: &Vec<char>, i: usize) -> (r: (Scanned, usize))
    requires
        (i as int) < cs@.len(),
    ensures
        i < r.1 && r.1 as int <= cs@.len(),
        match r.0 {
            Scanned::UpTok => scan_from(cs@, i as int) == seq![PathToken::Up] + scan_from(
                cs@,
                r.1 as int,
            ),
            Scanned::IdxOk(v) => v >= 0 && scan_from(cs@, i as int) == seq![
                PathToken::IdxTok(v as int),
            ] + scan_from(cs@, r.1 as int),
            Scanned::IdxOver(_) => scan_from(cs@, i as int).len() > 0 && (scan_from(
                cs@,
                i as int,
            )[0] matches PathToken::IdxTok(v) && v > isize::MAX as int),
            Scanned::NameOk(nm) => nm@.len() > 0 && scan_from(cs@, i as int) == seq![
                PathToken::NameTok(nm@),
            ] + scan_from(cs@, r.1 as int),
            Scanned::SkipTok => scan_from(cs@, i as int) == scan_from(cs@, r.1 as int),
        },
{
    let ghost s = cs@;
    let n = cs.len();
    let c = cs[i];
    if c == '.' && i + 1 < n && cs[i + 1] == '.' {
        let mut j = i + 2;
        if j < n && cs[j] == '/' {
            j = j + 1;
        }
        proof {
            assert(j as int == advance(s, i as int + 2));
        }
        (Scanned::UpTok, j)
    } else if c == '#' && i + 1 < n && char_is_digit(cs[i + 1]) {
        let mut j = i + 1;
        let mut acc: u128 = 0;
        let mut over = false;
        let mut run: Vec<char> = Vec::new();
        while j < n && char_is_digit(cs[j])
            invariant
                s == cs@,
                n == s.len(),
                (i as int) < s.len(),
                i + 1 <= j <= n,
                forall|z: int| i + 1 <= z < j ==> is_digit(#[trigger] s[z]),
                !over ==> acc == digits_val(s.subrange(i as int + 1, j as int)) && acc
                    <= isize::MAX as u128,
                over ==> digits_val(s.subrange(i as int + 1, j as int)) > isize::MAX as int,
                over ==> j > i + 1,
            decreases n - j,
        {
            let ghost pre = s.subrange(i as int + 1, j as int);
            run.push(cs[j]);
            let d = digit_val(cs[j]);
            if !over {
                let na = acc * 10 + (d as u128);
                if na > (isize::MAX as u128) {
                    over = true;
                } else {
                    acc = na;
                }
            }
            j = j + 1;
            proof {
                let nxt = s.subrange(i as int + 1, j as int);
                assert(nxt.drop_last() =~= pre);
                assert(nxt.last() == s[j - 1]);
                crate::text::lemma_digits_val_nonneg(pre);
            }
        }
        proof {
            crate::text::lemma_count_digits_run(s, i as int + 1, j as int);
        }
        let mut j2 = j;
        if j2 < n && cs[j2] == '/' {
            j2 = j2 + 1;
        }
        proof {
            assert(j2 as int == advance(s, j as int));
        }
        if over {
            (Scanned::IdxOver(string_from_chars(&run)), j2)
        } else {
            proof {
                assert(acc <= isize::MAX as u128);
            }
            (Scanned::IdxOk(acc as isize), j2)
        }
    } else if c == '#' || c == '/' {
        (Scanned::SkipTok, i + 1)
    } else {
        let mut j = i;
        let mut nm: Vec<char> = Vec::new();
        while j < n && !(cs[j] == '#' || cs[j] == '/')
            invariant
                s == cs@,
                n == s.len(),
                (i as int) < s.len(),
                i <= j <= n,
                forall|z: int| i <= z < j ==> is_name_char(#[trigger] s[z]),
                nm@ == s.subrange(i as int, j as int),
            decreases n - j,
        {
            nm.push(cs[j]);
            proof {
                assert(nm@ =~= s.subrange(i as int, j as int + 1));
            }
            j = j + 1;
        }
        proof {
            crate::text::lemma_count_name_run(s, i as int, j as int);
        }
        let mut j2 = j;
        if j2 < n && cs[j2] == '/' {
            j2 = j2 + 1;
        }
        proof {
            assert(j2 as int == advance(s, j as int));
        }
        let nms = string_from_chars(&nm);
        (Scanned::NameOk(nms), j2)
    }
}

/// The characters of one rendered path segment.
pub open spec fn render_seg(k: KeyModel) -> Seq<char> {
    match k {
        KeyModel::Name(s) => s,
        KeyModel::Idx(i) => seq!['#'] + render_int(i),
        KeyModel::AtRoot => Seq::empty(),
    }
}

/// The separator written before a segment: map keys are preceded by `/`,
/// index segments bring their own `#`.
pub open spec fn render_sep(k: KeyModel) -> Seq<char> {
    if k is Name {
        seq!['/']
    } else {
        Seq::empty()
    }
}

pub open spec fn render_tail(keys: Seq<KeyModel>) -> Seq<char>
    decreases keys.len(),
{
    if keys.len() == 0 {
        Seq::empty()
    } else {
        render_sep(keys[0]) + render_seg(keys[0]) + render_tail(keys.drop_first())
    }
}

/// The canonical string form of a key path: `/`-led, map keys as bare
/// segments, indices `#`-prefixed, and the bare root as `/`.
pub open spec fn render_path(keys: Seq<KeyModel>) -> Seq<char> {
    if keys.len() == 0 || !(keys[0] is Name) {
        seq!['/'] + render_tail(keys)
    } else {
        render_tail(keys)
    }
}

pub proof fn lemma_render_tail_snoc(keys: Seq<KeyModel>, k: KeyModel)
    ensures
        render_tail(keys.push(k)) == render_tail(keys) + render_sep(k) + render_seg(k),
    decreases keys.len(),
{
    if keys.len() == 0 {
        assert(keys.push(k)[0] == k);
        assert(keys.push(k).drop_first() =~= Seq::<KeyModel>::empty());
        assert(render_tail(keys) == Seq::<char>::empty());
        assert(render_tail(keys.push(k)) == render_sep(k) + render_seg(k) + render_tail(
            keys.push(k).drop_first(),
        ));
        assert(render_tail(Seq::<KeyModel>::empty()) == Seq::<char>::empty());
        assert(render_tail(keys.push(k)) =~= render_tail(keys) + render_sep(k) + render_seg(k));
    } else {
        assert(keys.push(k)[0] == keys[0]);
        assert(keys.push(k).drop_first() =~= keys.drop_first().push(k));
        lemma_render_tail_snoc(keys.drop_first(), k);
        assert(render_tail(keys.push(k)) == render_sep(keys[0]) + render_seg(keys[0])
            + render_tail(keys.drop_first().push(k)));
        assert(render_tail(keys) == render_sep(keys[0]) + render_seg(keys[0]) + render_tail(
            keys.drop_first(),
        ));
        assert(render_tail(keys.push(k)) =~= render_tail(keys) + render_sep(k) + render_seg(k));
    }
}

/// The key models of a collected key stack, reversed (leaf-first in, root
/// -first out).
pub open spec fn rev_views(v: Seq<AccessKey>) -> Seq<KeyModel> {
    Seq::new(v.len(), |x: int| v[v.len() - 1 - x]@)
}

impl Focus {
    /// Render this focus back to canonical string form.
    pub fn access_path(&self, t: &FocusTree) -> (r: String)
        requires
            t.wf(),
            (self.id as int) < t.n(),
        ensures
            r@ == render_path(t.path_of(self.id as int)),
    {
        let ghost keys = t.path_of(self.id as int);
        let mut rev_keys: Vec<AccessKey> = Vec::new();
        let mut cur: usize = self.id;
        while cur != 0
            invariant
                t.wf(),
                (cur as int) < t.n(),
                keys == t.path_of(self.id as int),
                keys == t.path_of(cur as int) + rev_views(rev_keys@),
                forall|x: int| 0 <= x < rev_keys@.len() ==> !((#[trigger] rev_keys@[x])@ is AtRoot),
            decreases cur,
        {
            let ghost rv0 = rev_keys@;
            rev_keys.push(t.recs[cur].key.duplicate());
            let prev = cur;
            cur = match t.recs[cur].parent {
                Option::Some(p) => p,
                Option::None => {
                    proof {
                        assert(false);
                    }
                    0
                },
            };
            proof {
                assert(t.path_of(prev as int) == t.path_of(cur as int).push(
                    t.rec(prev as int).key@,
                ));
                assert(rev_views(rev_keys@) =~= seq![t.rec(prev as int).key@] + rev_views(rv0));
                assert(t.path_of(cur as int) + rev_views(rev_keys@) =~= t.path_of(prev as int)
                    + rev_views(rv0));
            }
        }
        proof {
            assert(keys =~= rev_views(rev_keys@));
        }
        let m = rev_keys.len();
        let mut out: Vec<char> = Vec::new();
        let ghost lead: Seq<char> = if keys.len() == 0 || !(keys[0] is Name) {
            seq!['/']
        } else {
            Seq::empty()
        };
        if m == 0 {
            out.push('/');
        } else {
            match &rev_keys[m - 1] {
                AccessKey::Key(_) => {
                    proof {
                        assert(keys[0] == rev_keys@[m - 1]@);
                    }
                },
                _ => {
                    out.push('/');
                    proof {
                        assert(keys[0] == rev_keys@[m - 1]@);
                    }
                },
            }
        }
        proof {
            assert(out@ =~= lead + render_tail(keys.take(0)));
        }
        let mut x: usize = 0;
        while x < m
            invariant
                t.wf(),
                m == rev_keys@.len(),
                keys == rev_views(rev_keys@),
                x <= m,
                forall|z: int| 0 <= z < rev_keys@.len() ==> !((#[trigger] rev_keys@[z])@ is AtRoot),
                out@ == lead + render_tail(keys.take(x as int)),
            decreases m - x,
        {
            let ghost pre = keys.take(x as int);
            proof {
                assert(keys[x as int] == rev_keys@[m - 1 - x]@);
                lemma_render_tail_snoc(pre, keys[x as int]);
                assert(keys.take(x as int + 1) =~= pre.push(keys[x as int]));
            }
            match &rev_keys[m - 1 - x] {
                AccessKey::Key(nm) => {
                    out.push('/');
                    let mut cs2 = chars_of(nm.as_str());
                    out.append(&mut cs2);
                    proof {
                        assert(out@ =~= lead + render_tail(keys.take(x as int + 1)));
                    }
                },
                AccessKey::Index(ix) => {
                    out.push('#');
                    push_dec_int(&mut out, *ix);
                    proof {
                        assert(out@ =~= lead + render_tail(keys.take(x as int + 1)));
                    }
                },
                AccessKey::Root => {
                    proof {
                        assert(false);
                    }
                },
            }
            x = x + 1;
        }
        proof {
            assert(keys.take(m as int) =~= keys);
        }
        string_from_chars(&out)
    }
}

/// The access keys from the root down to a focus, in order (the root's own
/// key excluded).
pub fn access_segments(f: &Focus, t: &FocusTree) -> (r: Vec<AccessKey>)
    requires
        t.wf(),
        (f.id as int) < t.n(),
    ensures
        r@.len() == t.path_of(f.id as int).len(),
        forall|x: int| 0 <= x < r@.len() ==> (#[trigger] r@[x])@ == t.path_of(f.id as int)[x],
{
    let ghost keys = t.path_of(f.id as int);
    let mut rev_keys: Vec<AccessKey> = Vec::new();
    let mut cur: usize = f.id;
    while cur != 0
        invariant
            t.wf(),
            (cur as int) < t.n(),
            keys == t.path_of(f.id as int),
            keys == t.path_of(cur as int) + rev_views(rev_keys@),
        decreases cur,
    {
        let ghost rv0 = rev_keys@;
        rev_keys.push(t.recs[cur].key.duplicate());
        let prev = cur;
        cur = match t.recs[cur].parent {
            Option::Some(p) => p,
            Option::None => {
                proof {
                    assert(false);
                }
                0
            },
        };
        proof {
            assert(t.path_of(prev as int) == t.path_of(cur as int).push(
                t.rec(prev as int).key@,
            ));
            assert(rev_views(rev_keys@) =~= seq![t.rec(prev as int).key@] + rev_views(rv0));
            assert(t.path_of(cur as int) + rev_views(rev_keys@) =~= t.path_of(prev as int)
                + rev_views(rv0));
        }
    }
    proof {
        assert(keys =~= rev_views(rev_keys@));
    }
    let m = rev_keys.len();
    let mut segs: Vec<AccessKey> = Vec::new();
    let mut x: usize = 0;
    while x < m
        invariant
            m == rev_keys@.len(),
            keys == rev_views(rev_keys@),
            x <= m,
            segs@.len() == x,
            forall|z: int| 0 <= z < x ==> (#[trigger] segs@[z])@ == keys[z],
        decreases m - x,
    {
        proof {
            assert(keys[x as int] == rev_keys@[m - 1 - x]@);
        }
        segs.push(rev_keys[m - 1 - x].duplicate());
        x = x + 1;
    }
    segs
}

/// The focus round trip: when a live focus's rendered path (all of whose
/// keys round-trip: safe names and non-negative indices) is resolved again
/// and reaches a live focus, that focus is the original one — interning
/// guarantees identity, not merely equal paths.  `access_path` ensures the
/// rendered form, `turn_to` ensures the resolved path of what it returns.
pub proof fn lemma_focus_roundtrip(t: FocusTree, f: int, g: int)
    requires
        t.wf(),
        t.is_live(f),
        t.is_live(g),
        forall|x: int| 0 <= x < t.path_of(f).len() ==> safe_key(#[trigger] t.path_of(f)[x]),
        resolve_path_chars(Seq::empty(), render_path(t.path_of(f))) == Result::<
            Seq<KeyModel>,
            PathErr,
        >::Ok(t.path_of(g)),
    ensures
        g == f,
{
    lemma_render_resolve_roundtrip(t.path_of(f));
    assert(t.path_of(g) == t.path_of(f));
    lemma_live_path_unique(t, f, g);
}

/// Path interning gives identity: two live focuses with one key path are one
/// focus.
pub proof fn lemma_live_path_unique(t: FocusTree, a: int, b: int)
    requires
        t.wf(),
        t.is_live(a),
        t.is_live(b),
        t.path_of(a) == t.path_of(b),
    ensures
        a == b,
    decreases a + b,
{
    if a == 0 || b == 0 {
        if a != b {
            let c = if a == 0 {
                b
            } else {
                a
            };
            assert(t.path_of(c).len() >= 1);
            assert(t.path_of(0).len() == 0);
        }
    } else {
        let pa = t.parent_of(a);
        let pb = t.parent_of(b);
        assert(t.path_of(a) == t.path_of(pa).push(t.rec(a).key@));
        assert(t.path_of(b) == t.path_of(pb).push(t.rec(b).key@));
        assert(t.path_of(pa) =~= t.path_of(a).drop_last());
        assert(t.path_of(pb) =~= t.path_of(b).drop_last());
        assert(t.rec(a).key@ == t.path_of(a).last());
        assert(t.rec(b).key@ == t.path_of(b).last());
        lemma_live_path_unique(t, pa, pb);
        assert(kids_lookup(t.rec(pa).kids@, t.rec(a).key@) is Some);
    }
}


/// Chaining two arena-extension steps.
proof fn lemma_extends_step(a: FocusTree, m: FocusTree, b: FocusTree)
    requires
        extends(a, m),
        m.n() <= b.n(),
        forall|i: int|
            0 <= i < m.n() ==> (#[trigger] b.rec(i)).parent == m.rec(i).parent && b.rec(i).key@
                == m.rec(i).key@,
    ensures
        extends(a, b),
{
}

impl Focus {
    /// Resolve a path string from this focus (or from the root, if the path
    /// starts with `/`), interning every focus along the way.  The result is
    /// exactly what resolving the path's tokens against the starting key path
    /// gives: `OverFocus` when a `..` walks above the root, `Parsing` when an
    /// index does not fit, and otherwise a live focus whose key path is the
    /// resolved path.
    pub fn turn_to(&self, t: &mut FocusTree, path: &str) -> (r: Result<Focus, AccessPathError>)
        requires
            old(t).wf(),
            old(t).is_live(self.id as int),
        ensures
            final(t).wf(),
            extends(*old(t), *final(t)),
            forall|i: int| old(t).is_live(i) ==> final(t).is_live(i),
            ({
                let base = if path@.len() > 0 && path@[0] == '/' {
                    Seq::<KeyModel>::empty()
                } else {
                    old(t).path_of(self.id as int)
                };
                match r {
                    Result::Ok(f) => {
                        &&& final(t).is_live(f.id as int)
                        &&& resolve_path_chars(base, path@) == Result::<
                            Seq<KeyModel>,
                            PathErr,
                        >::Ok(final(t).path_of(f.id as int))
                    },
                    Result::Err(e) => match e {
                        AccessPathError::OverFocus(o) => resolve_path_chars(base, path@)
                            == Result::<Seq<KeyModel>, PathErr>::Err(PathErr::OverRoot) && o.path@
                            == path@,
                        AccessPathError::Parsing(pe) => resolve_path_chars(base, path@)
                            == Result::<Seq<KeyModel>, PathErr>::Err(PathErr::BadIndex) && pe.path@
                            == path@,
                    },
                }
            }),
    {
        let n0 = t.recs.len();
        let cs = chars_of(path);
        let ghost s = cs@;
        let n = cs.len();
        let ghost base0: Seq<KeyModel> = if s.len() > 0 && s[0] == '/' {
            Seq::<KeyModel>::empty()
        } else {
            old(t).path_of(self.id as int)
        };
        let ghost goal: Result<Seq<KeyModel>, PathErr> = resolve_toks(base0, scan_from(s, 0));
        let mut cur: Focus;
        if n > 0 && cs[0] == '/' {
            cur = t.root();
        } else {
            cur = self.dup(t);
            proof {
                lemma_path_agree(*old(t), *t, self.id as int);
            }
        }
        let mut i: usize = 0;
        while i < n
            invariant
                t.wf(),
                extends(*old(t), *t),
                n0 == old(t).n(),
                forall|i2: int| old(t).is_live(i2) ==> t.is_live(i2),
                s == cs@,
                s == path@,
                n == s.len(),
                i <= n,
                t.is_live(cur.id as int),
                resolve_toks(t.path_of(cur.id as int), scan_from(s, i as int)) == goal,
                goal == resolve_toks(base0, scan_from(s, 0)),
                base0 == (if path@.len() > 0 && path@[0] == '/' {
                    Seq::<KeyModel>::empty()
                } else {
                    old(t).path_of(self.id as int)
                }),
            decreases n - i,
        {
            let ghost t0 = *t;
            let ghost cur_path = t.path_of(cur.id as int);
            let (tok, ni) = next_token(&cs, i);
            match tok {
                Scanned::UpTok => {
                    proof {
                        assert((seq![PathToken::Up] + scan_from(s, ni as int))[0]
                            == PathToken::Up);
                        assert((seq![PathToken::Up] + scan_from(s, ni as int)).drop_first()
                            =~= scan_from(s, ni as int));
                    }
                    if cur.is_root() {
                        let ghost released = cur.id;
                        cur.release(t);
                        proof {
                            lemma_extends_step(*old(t), t0, *t);
                            assert forall|i2: int| old(t).is_live(i2) implies t.is_live(i2) by {
                                assert(t0.is_live(i2));
                                if i2 != released as int {
                                    assert(t.rec(i2) == t0.rec(i2));
                                }
                            }
                        }
                        return Result::Err(
                            AccessPathError::OverFocus(
                                OverFocusError { path: path.to_owned() },
                            ),
                        );
                    }
                    let parent = match cur.get_parent(t) {
                        Option::Some(h) => h,
                        Option::None => {
                            proof {
                                assert(false);
                            }
                            Focus { id: 0 }
                        },
                    };
                    let ghost t1 = *t;
                    proof {
                        lemma_path_agree(t0, t1, cur.id as int);
                        lemma_path_agree(t0, t1, parent.id as int);
                        assert(t1.path_of(cur.id as int) == t1.path_of(parent.id as int).push(
                            t1.rec(cur.id as int).key@,
                        ));
                        assert(t1.path_of(parent.id as int) == cur_path.drop_last());
                    }
                    // a slot this walk created may be collected again on the
                    // way up; one from before it keeps its count, since that
                    // reference belongs to a handle the walk did not make
                    let fresh = cur.id >= n0;
                    let can_drop = fresh || t.recs[cur.id].refs >= 2 || t.recs[cur.id].kids.len()
                        > 0;
                    if can_drop {
                        proof {
                            // the parent handle just taken keeps the parent
                            // slot at two references, so collection stops
                            // there
                            if parent.id != 0 {
                                assert(t1.rec(parent.id as int).refs >= 2);
                            }
                        }
                        let ghost released = cur.id;
                        cur.release(t);
                        proof {
                            lemma_path_agree(t1, *t, parent.id as int);
                            lemma_extends_step(*old(t), t0, *t);
                            assert forall|i2: int| old(t).is_live(i2) implies t.is_live(i2) by {
                                assert(t0.is_live(i2));
                                assert(t1.rec(i2).live == t0.rec(i2).live);
                                assert(t1.is_live(i2));
                                assert(i2 < n0 as int);
                                let rl = released as int;
                                if t1.rec(rl).refs >= 2 || t1.rec(rl).kids@.len() > 0 || rl
                                    == 0 {
                                    // the slot is not collected; other slots
                                    // are untouched
                                    if i2 != rl {
                                        assert(t.rec(i2) == t1.rec(i2));
                                    }
                                } else {
                                    // a fresh dead end is collected; its
                                    // supported parent and every other slot
                                    // stay live
                                    assert(rl >= n0 as int);
                                    assert(i2 != rl);
                                    if i2 != t1.parent_of(rl) {
                                        assert(t.rec(i2) == t1.rec(i2));
                                    }
                                }
                            }
                            assert(t.is_live(parent.id as int));
                        }
                    } else {
                        proof {
                            lemma_extends_step(*old(t), t0, *t);
                            assert forall|i2: int| old(t).is_live(i2) implies t.is_live(i2) by {
                                assert(t0.is_live(i2));
                                assert(t.rec(i2).live == t0.rec(i2).live);
                            }
                            assert(t.is_live(parent.id as int));
                        }
                    }
                    cur = parent;
                },
                Scanned::IdxOk(v) => {
                    let nxt = cur.focus(t, AccessKey::Index(v));
                    let ghost t1 = *t;
                    let ghost released = cur.id;
                    cur.release(t);
                    proof {
                        lemma_resolve_advance(t0, t1, *t, cur_path, nxt.id as int, s, i as int,
                            ni as int, seq![PathToken::IdxTok(v as int)], KeyModel::Idx(v as int));
                        lemma_extends_step(*old(t), t0, *t);
                        let rl = released as int;
                        // the released slot keeps its interned child, so it
                        // is not collected and nothing else is touched
                        assert(t1.rec(rl).kids@.len() > 0) by {
                            if t1.rec(rl).kids@.len() == 0 {
                                assert(crate::focus::kids_lookup(
                                    t1.rec(rl).kids@,
                                    KeyModel::Idx(v as int),
                                ) is None);
                            }
                        }
                        assert forall|i2: int| old(t).is_live(i2) implies t.is_live(i2) by {
                            assert(t0.is_live(i2));
                            assert(t1.rec(i2).live == t0.rec(i2).live);
                            if i2 != rl {
                                assert(t.rec(i2) == t1.rec(i2));
                            }
                        }
                    }
                    cur = nxt;
                },
                Scanned::IdxOver(segment) => {
                    // an existing slot can shed the walk's count at once; a
                    // chain this walk created stays interned behind the error
                    let can_drop = t.recs[cur.id].refs >= 2 || t.recs[cur.id].kids.len() > 0
                        || cur.id == 0;
                    if can_drop {
                        let ghost released = cur.id;
                        cur.release(t);
                        proof {
                            lemma_extends_step(*old(t), t0, *t);
                            assert forall|i2: int| old(t).is_live(i2) implies t.is_live(i2) by {
                                assert(t0.is_live(i2));
                                if i2 != released as int {
                                    assert(t.rec(i2) == t0.rec(i2));
                                }
                            }
                        }
                    } else {
                        proof {
                            lemma_extends_step(*old(t), t0, *t);
                        }
                    }
                    return Result::Err(
                        AccessPathError::Parsing(
                            PathParsingError { path: path.to_owned(), underlying: segment },
                        ),
                    );
                },
                Scanned::NameOk(nm) => {
                    let ghost nmv = nm@;
                    let nxt = cur.focus(t, AccessKey::Key(nm));
                    let ghost t1 = *t;
                    let ghost released = cur.id;
                    cur.release(t);
                    proof {
                        lemma_resolve_advance(t0, t1, *t, cur_path, nxt.id as int, s, i as int,
                            ni as int, seq![PathToken::NameTok(nmv)], KeyModel::Name(nmv));
                        lemma_extends_step(*old(t), t0, *t);
                        let rl = released as int;
                        // the released slot keeps its interned child, so it
                        // is not collected and nothing else is touched
                        assert(t1.rec(rl).kids@.len() > 0) by {
                            if t1.rec(rl).kids@.len() == 0 {
                                assert(crate::focus::kids_lookup(
                                    t1.rec(rl).kids@,
                                    KeyModel::Name(nmv),
                                ) is None);
                            }
                        }
                        assert forall|i2: int| old(t).is_live(i2) implies t.is_live(i2) by {
                            assert(t0.is_live(i2));
                            assert(t1.rec(i2).live == t0.rec(i2).live);
                            if i2 != rl {
                                assert(t.rec(i2) == t1.rec(i2));
                            }
                        }
                    }
                    cur = nxt;
                },
                Scanned::SkipTok => {
                },
            }
            i = ni;
        }
        Result::Ok(cur)
    }
}

/// After interning one key and dropping the handle on the previous focus, the
/// new focus is live, its path extends the old one by the key, and resolving
/// the remaining tokens from it gives the same answer as before the step.
proof fn lemma_resolve_advance(
    t0: FocusTree,
    t1: FocusTree,
    t2: FocusTree,
    cur_path: Seq<KeyModel>,
    nxt: int,
    s: Seq<char>,
    i: int,
    ni: int,
    head: Seq<PathToken>,
    k: KeyModel,
)
    requires
        t1.wf(),
        t2.wf(),
        0 <= nxt < t1.n(),
        t1.is_live(nxt),
        t2.n() == t1.n(),
        forall|x: int|
            0 <= x < t1.n() ==> (#[trigger] t2.rec(x)).parent == t1.rec(x).parent && t2.rec(x).key
                == t1.rec(x).key,
        forall|x: int|
            0 <= x < t1.n() && t1.is_live(x) && (#[trigger] t1.rec(x)).refs >= 2 ==> t2.is_live(x),
        t1.rec(nxt).refs >= 1,
        t1.rec(nxt).refs >= 2 || t2 == t1 || t2.rec(nxt as int) == t1.rec(nxt as int),
        t1.path_of(nxt) == cur_path.push(k),
        head.len() == 1,
        scan_from(s, i) == head + scan_from(s, ni),
        (head[0] matches PathToken::IdxTok(v) && k == KeyModel::Idx(v) && v <= isize::MAX as int)
            || (head[0] matches PathToken::NameTok(nm) && k == KeyModel::Name(nm)),
    ensures
        t2.is_live(nxt),
        resolve_toks(t2.path_of(nxt), scan_from(s, ni)) == resolve_toks(cur_path, scan_from(s, i)),
{
    assert((head + scan_from(s, ni))[0] == head[0]);
    assert((head + scan_from(s, ni)).drop_first() =~= scan_from(s, ni));
    lemma_path_agree(t1, t2, nxt);
    if t1.rec(nxt).refs >= 2 {
    } else {
        assert(t2.rec(nxt as int).live == t1.rec(nxt as int).live || t2 == t1);
    }
}
/// A map key that survives the round trip through its rendered form: it is
/// nonempty, holds no `/` or `#`, and does not begin like a `..` token.
pub open spec fn safe_name(s: Seq<char>) -> bool {
    &&& s.len() > 0
    &&& forall|x: int| 0 <= x < s.len() ==> is_name_char(#[trigger] s[x])
    &&& !(s.len() >= 2 && s[0] == '.' && s[1] == '.')
}

/// A key whose rendered segment scans back to itself: a safe map name, or a
/// non-negative machine-sized index (the forms `turn_to` itself produces).
pub open spec fn safe_key(k: KeyModel) -> bool {
    match k {
        KeyModel::Name(s) => safe_name(s),
        KeyModel::Idx(i) => 0 <= i <= isize::MAX as int,
        KeyModel::AtRoot => false,
    }
}

/// The token each key renders to.
pub open spec fn tokens_of(keys: Seq<KeyModel>) -> Seq<PathToken> {
    keys.map(
        |i: int, k: KeyModel|
            match k {
                KeyModel::Name(s) => PathToken::NameTok(s),
                KeyModel::Idx(v) => PathToken::IdxTok(v),
                KeyModel::AtRoot => PathToken::Up,
            },
    )
}

proof fn lemma_skip_index(s: Seq<char>, i: int, z: int)
    requires
        0 <= i,
        0 <= z,
        i + z < s.len(),
    ensures
        s.skip(i)[z] == s[i + z],
{
}

/// The suffix at the position right after a prefix of the current suffix.
proof fn lemma_skip_shift(s: Seq<char>, i: int, x: Seq<char>, w: int)
    requires
        0 <= i <= s.len(),
        s.skip(i) == x,
        0 <= w <= x.len(),
    ensures
        s.skip(i + w) =~= x.skip(w),
        forall|z: int| 0 <= z < x.len() ==> #[trigger] s.skip(i)[z] == x[z],
{
    assert forall|z: int| 0 <= z < x.skip(w).len() implies s.skip(i + w)[z] == x.skip(w)[z] by {
        lemma_skip_index(s, i + w, z);
        lemma_skip_index(s, i, w + z);
        assert(x[w + z] == x.skip(w)[z]);
    }
}

/// Scanning a rendered run of segments yields exactly their tokens.  The
/// position stands either at a segment's separator or, when the separator was
/// consumed by the previous token, at the segment itself.
#[verifier::rlimit(100)]
#[verifier::spinoff_prover]
proof fn lemma_scan_render(s: Seq<char>, i: int, keys: Seq<KeyModel>, sep_done: bool)
    requires
        0 <= i <= s.len(),
        forall|x: int| 0 <= x < keys.len() ==> safe_key(#[trigger] keys[x]),
        s.skip(i) == (if keys.len() == 0 {
            Seq::<char>::empty()
        } else if sep_done {
            render_seg(keys[0]) + render_tail(keys.drop_first())
        } else {
            render_tail(keys)
        }),
    ensures
        scan_from(s, i) == tokens_of(keys),
    decreases keys.len(), (if sep_done {
        0int
    } else {
        1int
    }),
{
    if keys.len() == 0 {
        assert(s.skip(i).len() == s.len() - i);
        assert(scan_from(s, i) =~= tokens_of(keys));
    } else {
        let k0 = keys[0];
        let rest = keys.drop_first();
        let x = s.skip(i);
        assert(x.len() == s.len() - i);
        lemma_skip_shift(s, i, x, 0);
        assert(tokens_of(keys) =~= seq![tokens_of(keys)[0]] + tokens_of(rest));
        if !sep_done && k0 is Name {
            // the separator: one `/`, which the scanner skips
            assert(x == seq!['/'] + render_seg(k0) + render_tail(rest));
            assert(x[0] == '/');
            assert(s[i] == '/') by {
                lemma_skip_index(s, i, 0);
            }
            lemma_skip_shift(s, i, x, 1);
            assert(s.skip(i + 1) =~= render_seg(k0) + render_tail(rest)) by {
                assert(x.skip(1) =~= render_seg(k0) + render_tail(rest));
            }
            lemma_scan_render(s, i + 1, keys, true);
        } else {
            // at the segment itself
            let seg = render_seg(k0);
            let tail = render_tail(rest);
            assert(x =~= seg + tail) by {
                if !sep_done {
                    assert(render_sep(k0) =~= Seq::<char>::empty());
                    assert(x == render_sep(k0) + render_seg(k0) + render_tail(rest));
                }
            }
            // what the next segment starts with, if any
            assert(rest.len() > 0 ==> tail.len() > 0 && (tail[0] == '/' || tail[0] == '#')) by {
                if rest.len() > 0 {
                    assert(tail == render_sep(rest[0]) + render_seg(rest[0]) + render_tail(
                        rest.drop_first(),
                    ));
                    if rest[0] is Name {
                        assert(tail[0] == '/');
                    } else {
                        assert(safe_key(rest[0]));
                        assert(render_seg(rest[0])[0] == '#');
                        assert(tail[0] == '#');
                    }
                }
            }
            let w = seg.len() as int;
            assert(forall|z: int| 0 <= z < w ==> #[trigger] x[z] == seg[z]);
            assert forall|z: int| 0 <= z < w implies #[trigger] s[i + z] == seg[z] by {
                lemma_skip_index(s, i, z);
            }
            assert(tail.len() > 0 ==> s[i + w] == tail[0]) by {
                if tail.len() > 0 {
                    lemma_skip_index(s, i, w);
                    assert(x[w] == tail[0]);
                }
            }
            assert(i + w == s.len() || s[i + w] == '/' || s[i + w] == '#');
            match k0 {
                KeyModel::Name(nm) => {
                    assert(seg == nm);
                    assert(s[i] == nm[0]);
                    assert(is_name_char(s[i]));
                    // no `..` token can start here: a safe name does not begin
                    // with two dots, and a following segment starts otherwise
                    assert(!(s[i] == '.' && i + 1 < s.len() && s[i + 1] == '.')) by {
                        if s[i] == '.' && i + 1 < s.len() {
                            if nm.len() >= 2 {
                                assert(s[i + 1] == nm[1]);
                            } else {
                                assert(s[i + 1] == tail[0]);
                            }
                        }
                    }
                    assert forall|z: int| i <= z < i + w implies is_name_char(
                        #[trigger] s[z],
                    ) by {
                        lemma_skip_index(s, i, z - i);
                        assert(x[z - i] == seg[z - i]);
                    }
                    crate::text::lemma_count_name_run(s, i, i + w);
                    assert forall|z: int| 0 <= z < w implies s.subrange(i, i + w)[z] == nm[z] by {
                        lemma_skip_index(s, i, z);
                        assert(x[z] == seg[z]);
                    }
                    assert(s.subrange(i, i + count_name(s, i)) =~= nm);
                    let nxt = advance(s, i + w);
                    assert(scan_from(s, i) == seq![PathToken::NameTok(nm)] + scan_from(s, nxt));
                    if i + w < s.len() && s[i + w] == '/' {
                        // the next segment is a name; its separator is consumed
                        assert(tail.len() > 0 && tail[0] == '/');
                        assert(rest.len() > 0);
                        assert(rest[0] is Name) by {
                            if !(rest[0] is Name) {
                                assert(tail[0] == '#');
                            }
                        }
                        assert(nxt == i + w + 1);
                        lemma_skip_shift(s, i, x, w + 1);
                        assert(s.skip(nxt) =~= render_seg(rest[0]) + render_tail(
                            rest.drop_first(),
                        )) by {
                            assert(tail =~= seq!['/'] + render_seg(rest[0]) + render_tail(
                                rest.drop_first(),
                            ));
                            assert(x.skip(w + 1) =~= tail.skip(1));
                            assert(tail.skip(1) =~= render_seg(rest[0]) + render_tail(
                                rest.drop_first(),
                            ));
                        }
                        lemma_scan_render(s, nxt, rest, true);
                    } else {
                        assert(nxt == i + w);
                        lemma_skip_shift(s, i, x, w);
                        assert(s.skip(nxt) =~= tail) by {
                            assert(x.skip(w) =~= tail);
                        }
                        lemma_scan_render(s, nxt, rest, false);
                    }
                    assert(scan_from(s, i) =~= tokens_of(keys));
                },
                KeyModel::Idx(v) => {
                    let digits = crate::text::dec_digits(v);
                    crate::text::lemma_digits_roundtrip(v);
                    assert(seg =~= seq!['#'] + digits);
                    assert(s[i] == '#');
                    assert(s[i + 1] == digits[0]);
                    assert(is_digit(s[i + 1]));
                    assert forall|z: int| i + 1 <= z < i + w implies is_digit(#[trigger] s[z]) by {
                        lemma_skip_index(s, i, z - i);
                        assert(x[z - i] == seg[z - i]);
                        assert(seg[z - i] == digits[z - i - 1]);
                    }
                    crate::text::lemma_count_digits_run(s, i + 1, i + w);
                    assert forall|z: int| 0 <= z < digits.len() implies s.subrange(
                        i + 1,
                        i + w,
                    )[z] == digits[z] by {
                        lemma_skip_index(s, i, z + 1);
                        assert(x[z + 1] == seg[z + 1]);
                        assert(seg[z + 1] == digits[z]);
                    }
                    assert(s.subrange(i + 1, i + 1 + count_digits(s, i + 1)) =~= digits);
                    assert(digits_val(digits) == v);
                    let nxt = advance(s, i + w);
                    assert(scan_from(s, i) == seq![PathToken::IdxTok(v)] + scan_from(s, nxt));
                    if i + w < s.len() && s[i + w] == '/' {
                        assert(tail.len() > 0 && tail[0] == '/');
                        assert(rest.len() > 0);
                        assert(rest[0] is Name) by {
                            if !(rest[0] is Name) {
                                assert(tail[0] == '#');
                            }
                        }
                        assert(nxt == i + w + 1);
                        lemma_skip_shift(s, i, x, w + 1);
                        assert(s.skip(nxt) =~= render_seg(rest[0]) + render_tail(
                            rest.drop_first(),
                        )) by {
                            assert(tail =~= seq!['/'] + render_seg(rest[0]) + render_tail(
                                rest.drop_first(),
                            ));
                            assert(x.skip(w + 1) =~= tail.skip(1));
                            assert(tail.skip(1) =~= render_seg(rest[0]) + render_tail(
                                rest.drop_first(),
                            ));
                        }
                        lemma_scan_render(s, nxt, rest, true);
                    } else {
                        assert(nxt == i + w);
                        lemma_skip_shift(s, i, x, w);
                        assert(s.skip(nxt) =~= tail) by {
                            assert(x.skip(w) =~= tail);
                        }
                        lemma_scan_render(s, nxt, rest, false);
                    }
                    assert(scan_from(s, i) =~= tokens_of(keys));
                },
                KeyModel::AtRoot => {
                    assert(false);
                },
            }
        }
    }
}

/// Tokens rendered from safe keys resolve by appending each key in turn.
proof fn lemma_resolve_tokens(base: Seq<KeyModel>, keys: Seq<KeyModel>)
    requires
        forall|x: int| 0 <= x < keys.len() ==> safe_key(#[trigger] keys[x]),
    ensures
        resolve_toks(base, tokens_of(keys)) == Result::<Seq<KeyModel>, PathErr>::Ok(base + keys),
    decreases keys.len(),
{
    if keys.len() == 0 {
        assert(base + keys =~= base);
    } else {
        let rest = keys.drop_first();
        assert(tokens_of(keys)[0] == tokens_of(keys).first());
        assert(tokens_of(keys).drop_first() =~= tokens_of(rest));
        match keys[0] {
            KeyModel::Name(nm) => {
                lemma_resolve_tokens(base.push(KeyModel::Name(nm)), rest);
                assert(base.push(KeyModel::Name(nm)) + rest =~= base + keys);
            },
            KeyModel::Idx(v) => {
                lemma_resolve_tokens(base.push(KeyModel::Idx(v)), rest);
                assert(base.push(KeyModel::Idx(v)) + rest =~= base + keys);
            },
            KeyModel::AtRoot => {
                assert(false);
            },
        }
    }
}

/// The round-trip law behind focus re-resolution: a canonical path rendered
/// from safe keys resolves back to exactly those keys.  Together with
/// `lemma_live_path_unique` and the contracts of `access_path` and `turn_to`,
/// re-resolving a live focus's rendered path yields that same focus.
pub proof fn lemma_render_resolve_roundtrip(keys: Seq<KeyModel>)
    requires
        forall|x: int| 0 <= x < keys.len() ==> safe_key(#[trigger] keys[x]),
    ensures
        resolve_path_chars(Seq::empty(), render_path(keys)) == Result::<
            Seq<KeyModel>,
            PathErr,
        >::Ok(keys),
{
    let s = render_path(keys);
    if keys.len() == 0 {
        assert(s =~= seq!['/']);
        assert(scan_from(s, 1) =~= Seq::<PathToken>::empty());
        assert(scan_from(s, 0) =~= Seq::<PathToken>::empty());
        assert(resolve_toks(Seq::empty(), scan_from(s, 0)) == Result::<
            Seq<KeyModel>,
            PathErr,
        >::Ok(Seq::<KeyModel>::empty()));
        assert(Seq::<KeyModel>::empty() =~= keys);
    } else if keys[0] is Name {
        assert(s == render_tail(keys));
        assert(s.skip(0) =~= render_tail(keys));
        lemma_scan_render(s, 0, keys, false);
        lemma_resolve_tokens(Seq::empty(), keys);
        assert(Seq::<KeyModel>::empty() + keys =~= keys);
    } else {
        assert(s == seq!['/'] + render_tail(keys));
        assert(s[0] == '/');
        assert(s.skip(1) =~= render_tail(keys));
        assert(scan_from(s, 0) == scan_from(s, 1));
        lemma_scan_render(s, 1, keys, false);
        lemma_resolve_tokens(Seq::empty(), keys);
        assert(Seq::<KeyModel>::empty() + keys =~= keys);
    }
}

} // verus!
