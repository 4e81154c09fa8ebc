//! The tree walker: renders a directory snapshot as an indented tree and
//! collects the cleaned contents of the admitted files, in a fixed order.
use vstd::prelude::*;
use vstd::multiset::Multiset;
use crate::text::{chars_of, string_of, append_chars, contains_chars, char_lists, views_of};
use crate::compact::{compact, remove_empty_lines};
use crate::strip::{strip, remove_comments};

verus! {

broadcast use vstd::std_specs::vec::axiom_vec_index_decreases;

/// A snapshot of one directory entry.
pub enum Entry {
    /// A directory; `listed` is false when its entries could not be read,
    /// and `children` is then not looked at.
    Dir { name: String, children: Vec<Entry>, listed: bool },
    /// A file; `content` is `None` when it could not be read as text.
    File { name: String, content: Option<String> },
}

impl Entry {
    pub open spec fn name_view(&self) -> Seq<char> {
        match self {
            Entry::Dir { name, .. } => name@,
            Entry::File { name, .. } => name@,
        }
    }

    pub fn name(&self) -> (r: &String)
        ensures
            r@ == self.name_view(),
    {
        match self {
            Entry::Dir { name, .. } => name,
            Entry::File { name, .. } => name,
        }
    }
}

/// The path of one admitted file, relative to the root, and its cleaned
/// content.
pub struct FileBlock {
    pub path: String,
    pub content: String,
}

/// What a walk produces.
pub struct Walk {
    /// The tree rendering, root line first, one line per shown entry.
    pub tree: String,
    /// One block per admitted file that could be read, in traversal order.
    pub blocks: Vec<FileBlock>,
    /// The relative paths of the directories and files that could not be read.
    pub errors: Vec<String>,
}

/// The model of a walk's output.
pub ghost struct Listing {
    pub tree: Seq<char>,
    pub blocks: Seq<(Seq<char>, Seq<char>)>,
    pub errors: Seq<Seq<char>>,
}

pub open spec fn blocks_view(b: Seq<FileBlock>) -> Seq<(Seq<char>, Seq<char>)> {
    b.map_values(|x: FileBlock| (x.path@, x.content@))
}

impl View for Walk {
    type V = Listing;

    open spec fn view(&self) -> Listing {
        Listing { tree: self.tree@, blocks: blocks_view(self.blocks@), errors: views_of(self.errors@) }
    }
}

pub open spec fn empty_listing() -> Listing {
    Listing { tree: Seq::empty(), blocks: Seq::empty(), errors: Seq::empty() }
}

/// `a` followed by `b`.
pub open spec fn join(a: Listing, b: Listing) -> Listing {
    Listing { tree: a.tree + b.tree, blocks: a.blocks + b.blocks, errors: a.errors + b.errors }
}

// ---- ordering of names ----

/// `a` comes before `b` in character order, comparing from position `i`.
pub open spec fn lt_from(a: Seq<char>, b: Seq<char>, i: int) -> bool
    decreases a.len() - i,
{
    if i < 0 || i >= a.len() {
        i >= 0 && i < b.len()
    } else if i >= b.len() {
        false
    } else if a[i] != b[i] {
        (a[i] as u32) < (b[i] as u32)
    } else {
        lt_from(a, b, i + 1)
    }
}

/// Strict lexicographic order of names, character by character (the order
/// of their UTF-8 bytes).
pub open spec fn name_lt(a: Seq<char>, b: Seq<char>) -> bool {
    lt_from(a, b, 0)
}

pub fn less_than(a: &Vec<char>, b: &Vec<char>) -> (r: bool)
    ensures
        r == name_lt(a@, b@),
{
    let mut i: usize = 0;
    while i < a.len() && i < b.len() && a[i] == b[i]
        invariant
            i <= a.len(),
            i <= b.len(),
            name_lt(a@, b@) == lt_from(a@, b@, i as int),
        decreases a.len() - i,
    {
        i = i + 1;
    }
    if i >= a.len() {
        i < b.len()
    } else if i >= b.len() {
        false
    } else {
        (a[i] as u32) < (b[i] as u32)
    }
}

/// Inserts index `j` before the first index in `o` whose key is greater.
pub open spec fn insert_idx(keys: Seq<Seq<char>>, o: Seq<usize>, j: usize) -> Seq<usize>
    decreases o.len(),
{
    if o.len() == 0 {
        seq![j]
    } else if name_lt(keys[j as int], keys[o[0] as int]) {
        seq![j] + o
    } else {
        seq![o[0]] + insert_idx(keys, o.drop_first(), j)
    }
}

/// The indices `0..n` in the order of their keys (insertion order among
/// equal keys).
pub open spec fn sort_idx(keys: Seq<Seq<char>>, n: nat) -> Seq<usize>
    decreases n,
{
    if n == 0 {
        Seq::empty()
    } else {
        insert_idx(keys, sort_idx(keys, (n - 1) as nat), (n - 1) as usize)
    }
}

proof fn lemma_insert_at(keys: Seq<Seq<char>>, o: Seq<usize>, j: usize, p: int)
    requires
        0 <= p <= o.len(),
        forall|q: int| 0 <= q < p ==> !name_lt(keys[j as int], #[trigger] keys[o[q] as int]),
        p < o.len() ==> name_lt(keys[j as int], keys[o[p] as int]),
    ensures
        insert_idx(keys, o, j) == o.take(p).push(j) + o.skip(p),
    decreases o.len(),
{
    if o.len() == 0 {
        assert(o.take(p).push(j) + o.skip(p) =~= seq![j]);
    } else if p == 0 {
        assert(o.take(p).push(j) + o.skip(p) =~= seq![j] + o);
    } else {
        let t = o.drop_first();
        assert forall|q: int| 0 <= q < p - 1 implies !name_lt(keys[j as int], #[trigger] keys[t[q] as int]) by {
            assert(t[q] == o[q + 1]);
        }
        assert(!name_lt(keys[j as int], keys[o[0] as int]));
        lemma_insert_at(keys, t, j, p - 1);
        assert(o.take(p).push(j) + o.skip(p) =~= seq![o[0]] + (t.take(p - 1).push(j) + t.skip(p - 1)));
    }
}

proof fn lemma_insert_bounds(keys: Seq<Seq<char>>, o: Seq<usize>, j: usize, n: int)
    requires
        forall|q: int| 0 <= q < o.len() ==> (#[trigger] o[q]) < n,
        j < n,
    ensures
        insert_idx(keys, o, j).len() == o.len() + 1,
        forall|q: int| 0 <= q < insert_idx(keys, o, j).len() ==> (#[trigger] insert_idx(keys, o, j)[q]) < n,
    decreases o.len(),
{
    if o.len() > 0 {
        let t = o.drop_first();
        assert forall|q: int| 0 <= q < t.len() implies (#[trigger] t[q]) < n by {
            assert(t[q] == o[q + 1]);
        }
        lemma_insert_bounds(keys, t, j, n);
        let r = insert_idx(keys, o, j);
        if !name_lt(keys[j as int], keys[o[0] as int]) {
            assert forall|q: int| 0 <= q < r.len() implies (#[trigger] r[q]) < n by {
                if q > 0 {
                    assert(r[q] == insert_idx(keys, t, j)[q - 1]);
                }
            }
        }
    }
}

proof fn lemma_sort_bounds(keys: Seq<Seq<char>>, n: nat)
    ensures
        sort_idx(keys, n).len() == n,
        forall|q: int| 0 <= q < sort_idx(keys, n).len() ==> (#[trigger] sort_idx(keys, n)[q]) < n,
    decreases n,
{
    if n > 0 {
        lemma_sort_bounds(keys, (n - 1) as nat);
        lemma_insert_bounds(keys, sort_idx(keys, (n - 1) as nat), (n - 1) as usize, n as int);
    }
}

/// The indices of `keys` in sorted order.
pub fn sorted_order(keys: &Vec<Vec<char>>) -> (o: Vec<usize>)
    ensures
        o@ == sort_idx(views_of_chars(keys@), keys.len() as nat),
{
    let ghost kv = views_of_chars(keys@);
    let mut o: Vec<usize> = Vec::new();
    let mut j: usize = 0;
    while j < keys.len()
        invariant
            j <= keys.len(),
            kv == views_of_chars(keys@),
            o@ == sort_idx(kv, j as nat),
        decreases keys.len() - j,
    {
        proof {
            lemma_sort_bounds(kv, j as nat);
        }
        let mut p: usize = 0;
        while p < o.len() && !less_than(&keys[j], &keys[o[p]])
            invariant
                j < keys.len(),
                p <= o.len(),
                o.len() == j,
                kv == views_of_chars(keys@),
                forall|q: int| 0 <= q < o.len() ==> (#[trigger] o@[q]) < j,
                forall|q: int| 0 <= q < p ==> !name_lt(kv[j as int], #[trigger] kv[o@[q] as int]),
            decreases o.len() - p,
        {
            p = p + 1;
        }
        proof {
            lemma_insert_at(kv, o@, j, p as int);
        }
        o.insert(p, j);
        assert(o@ =~= sort_idx(kv, j as nat).take(p as int).push(j) + sort_idx(kv, j as nat).skip(p as int));
        j = j + 1;
    }
    o
}

pub open spec fn views_of_chars(v: Seq<Vec<char>>) -> Seq<Seq<char>> {
    Seq::new(v.len(), |i: int| v[i]@)
}

// ---- which entries are shown ----

/// The position of the last `'.'` in `s`, or -1.
pub open spec fn last_dot(s: Seq<char>) -> int
    decreases s.len(),
{
    if s.len() == 0 {
        -1
    } else if s.last() == '.' {
        s.len() - 1
    } else {
        last_dot(s.drop_last())
    }
}

/// The extension of a file name: what follows its last `'.'`. A name with no
/// `'.'`, or whose only `'.'` is its first character, has none.
pub open spec fn extension_of(name: Seq<char>) -> Option<Seq<char>> {
    let d = last_dot(name);
    if d <= 0 {
        None
    } else {
        Some(name.subrange(d + 1, name.len() as int))
    }
}

pub fn extension(name: &Vec<char>) -> (r: Option<Vec<char>>)
    ensures
        match extension_of(name@) {
            Some(x) => r is Some && r->0@ == x,
            None => r is None,
        },
{
    let mut d: usize = name.len();
    assert(name@.take(d as int) =~= name@);
    while d > 0 && name[d - 1] != '.'
        invariant
            d <= name.len(),
            last_dot(name@) == last_dot(name@.take(d as int)),
        decreases d,
    {
        assert(name@.take(d as int).drop_last() =~= name@.take(d - 1));
        d = d - 1;
    }
    if d == 0 {
        assert(name@.take(0) =~= Seq::<char>::empty());
        return None;
    }
    assert(name@.take(d as int).drop_last() =~= name@.take(d - 1));
    if d == 1 {
        return None;
    }
    let mut r: Vec<char> = Vec::new();
    let mut k: usize = d;
    while k < name.len()
        invariant
            d <= k <= name.len(),
            r@ == name@.subrange(d as int, k as int),
        decreases name.len() - k,
    {
        r.push(name[k]);
        k = k + 1;
        assert(r@ =~= name@.subrange(d as int, k as int));
    }
    Some(r)
}

/// An entry has a line in the tree: a directory whose name is not denied, or
/// a file whose extension is allowed.
pub open spec fn shown(e: Entry, allowed: Seq<Seq<char>>, deny: Seq<Seq<char>>) -> bool {
    match e {
        Entry::Dir { name, .. } => !deny.contains(name@),
        Entry::File { name, .. } => match extension_of(name@) {
            Some(x) => allowed.contains(x),
            None => false,
        },
    }
}

pub open spec fn keys_of(c: Seq<Entry>) -> Seq<Seq<char>> {
    Seq::new(c.len(), |i: int| c[i].name_view())
}

/// The shown indices of `o`, in order.
pub open spec fn keep_shown(c: Seq<Entry>, o: Seq<usize>, allowed: Seq<Seq<char>>, deny: Seq<Seq<char>>) -> Seq<usize>
    decreases o.len(),
{
    if o.len() == 0 {
        o
    } else {
        let k = keep_shown(c, o.drop_last(), allowed, deny);
        if o.last() < c.len() && shown(c[o.last() as int], allowed, deny) {
            k.push(o.last())
        } else {
            k
        }
    }
}

/// The children of a directory that the tree shows, as indices, sorted by name.
pub open spec fn visible(c: Seq<Entry>, allowed: Seq<Seq<char>>, deny: Seq<Seq<char>>) -> Seq<usize> {
    keep_shown(c, sort_idx(keys_of(c), c.len()), allowed, deny)
}

// ---- rendering ----

pub open spec fn branch(last: bool) -> Seq<char> {
    if last {
        seq!['\u{2514}', '\u{2500}', '\u{2500}', ' ']
    } else {
        seq!['\u{251c}', '\u{2500}', '\u{2500}', ' ']
    }
}

pub open spec fn indent() -> Seq<char> {
    seq![' ', ' ', ' ', ' ']
}

/// The path of entry `name` under the relative directory path `rel`.
pub open spec fn child_path(rel: Seq<char>, name: Seq<char>) -> Seq<char> {
    if rel.len() == 0 {
        name
    } else {
        rel + seq!['/'] + name
    }
}

/// A file's content, comments and blank lines removed.
pub open spec fn cleaned(content: Seq<char>, ext: Seq<char>) -> Seq<char> {
    compact(strip(content, ext))
}

/// The extension of a file name, empty where it has none.
pub open spec fn ext_or_empty(name: Seq<char>) -> Seq<char> {
    match extension_of(name) {
        Some(x) => x,
        None => Seq::empty(),
    }
}

/// What the `k`-th and later visible children of `d` contribute, where `d`
/// sits at relative path `rel` and its children's lines start with `prefix`.
pub open spec fn render(
    d: Entry,
    k: int,
    prefix: Seq<char>,
    rel: Seq<char>,
    allowed: Seq<Seq<char>>,
    deny: Seq<Seq<char>>,
) -> Listing
    decreases d, visible(d->Dir_children@, allowed, deny).len() - k,
{
    if !(d is Dir) || k < 0 {
        empty_listing()
    } else {
        let c = d->Dir_children@;
        let o = visible(c, allowed, deny);
        if k >= o.len() || o[k] >= c.len() {
            empty_listing()
        } else {
            let e = c[o[k] as int];
            let name = e.name_view();
            let path = child_path(rel, name);
            let line = Listing {
                tree: prefix + branch(k == o.len() - 1) + name + seq!['\n'],
                blocks: Seq::empty(),
                errors: Seq::empty(),
            };
            let body = match e {
                Entry::Dir { listed, .. } => if listed {
                    render(e, 0, prefix + indent(), path, allowed, deny)
                } else {
                    Listing { tree: Seq::empty(), blocks: Seq::empty(), errors: seq![path] }
                },
                Entry::File { content, .. } => match content {
                    Some(t) => Listing {
                        tree: Seq::empty(),
                        blocks: seq![(path, cleaned(t@, ext_or_empty(name)))],
                        errors: Seq::empty(),
                    },
                    None => Listing { tree: Seq::empty(), blocks: Seq::empty(), errors: seq![path] },
                },
            };
            join(join(line, body), render(d, k + 1, prefix, rel, allowed, deny))
        }
    }
}

/// The whole output for a snapshot rooted at `root`: the root's own line,
/// then what its visible children contribute.
pub open spec fn walk_listing(root: Entry, allowed: Seq<Seq<char>>, deny: Seq<Seq<char>>) -> Listing {
    join(
        Listing { tree: root.name_view() + seq!['\n'], blocks: Seq::empty(), errors: Seq::empty() },
        render(root, 0, Seq::empty(), Seq::empty(), allowed, deny),
    )
}

proof fn lemma_join_assoc(a: Listing, b: Listing, c: Listing)
    ensures
        join(join(a, b), c) == join(a, join(b, c)),
{
    assert(join(join(a, b), c).tree =~= join(a, join(b, c)).tree);
    assert(join(join(a, b), c).blocks =~= join(a, join(b, c)).blocks);
    assert(join(join(a, b), c).errors =~= join(a, join(b, c)).errors);
}

proof fn lemma_join_empty(a: Listing)
    ensures
        join(a, empty_listing()) == a,
{
    assert(join(a, empty_listing()).tree =~= a.tree);
    assert(join(a, empty_listing()).blocks =~= a.blocks);
    assert(join(a, empty_listing()).errors =~= a.errors);
}

struct Acc {
    tree: Vec<char>,
    blocks: Vec<FileBlock>,
    errors: Vec<String>,
}

impl View for Acc {
    type V = Listing;

    closed spec fn view(&self) -> Listing {
        Listing { tree: self.tree@, blocks: blocks_view(self.blocks@), errors: views_of(self.errors@) }
    }
}

fn in_list(set: &Vec<Vec<char>>, x: &Vec<char>) -> (r: bool)
    ensures
        r == views_of_chars(set@).contains(x@),
{
    let r = contains_chars(set, x);
    proof {
        let v = views_of_chars(set@);
        if r {
            let k = choose|k: int| 0 <= k < set.len() && #[trigger] set@[k]@ == x@;
            assert(v[k] == x@);
        } else {
            assert forall|k: int| 0 <= k < v.len() implies v[k] != x@ by {
                assert(set@[k]@ != x@);
            }
        }
    }
    r
}

fn is_shown(e: &Entry, allowed: &Vec<Vec<char>>, deny: &Vec<Vec<char>>) -> (r: bool)
    ensures
        r == shown(*e, views_of_chars(allowed@), views_of_chars(deny@)),
{
    match e {
        Entry::Dir { name, .. } => !in_list(deny, &chars_of(name.as_str())),
        Entry::File { name, .. } => match extension(&chars_of(name.as_str())) {
            Some(x) => in_list(allowed, &x),
            None => false,
        },
    }
}

fn names_of(c: &Vec<Entry>) -> (r: Vec<Vec<char>>)
    ensures
        views_of_chars(r@) == keys_of(c@),
{
    let mut r: Vec<Vec<char>> = Vec::new();
    let mut i: usize = 0;
    while i < c.len()
        invariant
            i <= c.len(),
            r.len() == i,
            forall|k: int| 0 <= k < i ==> #[trigger] r@[k]@ == c@[k].name_view(),
        decreases c.len() - i,
    {
        r.push(chars_of(c[i].name().as_str()));
        i = i + 1;
    }
    assert(views_of_chars(r@) =~= keys_of(c@));
    r
}

fn visible_children(c: &Vec<Entry>, allowed: &Vec<Vec<char>>, deny: &Vec<Vec<char>>) -> (r: Vec<usize>)
    ensures
        r@ == visible(c@, views_of_chars(allowed@), views_of_chars(deny@)),
{
    let ghost av = views_of_chars(allowed@);
    let ghost dv = views_of_chars(deny@);
    let keys = names_of(c);
    assert(keys.len() == views_of_chars(keys@).len());
    let o = sorted_order(&keys);
    let mut r: Vec<usize> = Vec::new();
    let mut i: usize = 0;
    assert(o@.take(0) =~= Seq::<usize>::empty());
    while i < o.len()
        invariant
            i <= o.len(),
            r@ == keep_shown(c@, o@.take(i as int), av, dv),
            av == views_of_chars(allowed@),
            dv == views_of_chars(deny@),
        decreases o.len() - i,
    {
        assert(o@.take(i + 1).drop_last() =~= o@.take(i as int));
        let j = o[i];
        if j < c.len() && is_shown(&c[j], allowed, deny) {
            r.push(j);
        }
        i = i + 1;
    }
    assert(o@.take(i as int) =~= o@);
    r
}

fn glyph(last: bool) -> (r: Vec<char>)
    ensures
        r@ == branch(last),
{
    let r = if last {
        vec!['\u{2514}', '\u{2500}', '\u{2500}', ' ']
    } else {
        vec!['\u{251c}', '\u{2500}', '\u{2500}', ' ']
    };
    assert(r@ =~= branch(last));
    r
}

fn path_of(rel: &Vec<char>, name: &Vec<char>) -> (r: Vec<char>)
    ensures
        r@ == child_path(rel@, name@),
{
    if rel.len() == 0 {
        let mut r: Vec<char> = Vec::new();
        append_chars(&mut r, name);
        assert(r@ =~= name@);
        r
    } else {
        let mut r: Vec<char> = Vec::new();
        append_chars(&mut r, rel);
        r.push('/');
        append_chars(&mut r, name);
        r
    }
}

/// Appends what the visible children of directory `d` contribute.
fn visit(
    d: &Entry,
    prefix: &Vec<char>,
    rel: &Vec<char>,
    allowed: &Vec<Vec<char>>,
    deny: &Vec<Vec<char>>,
    acc: &mut Acc,
)
    ensures
        final(acc)@ == join(
            old(acc)@,
            render(*d, 0, prefix@, rel@, views_of_chars(allowed@), views_of_chars(deny@)),
        ),
    decreases d,
{
    let ghost av = views_of_chars(allowed@);
    let ghost dv = views_of_chars(deny@);
    match d {
        Entry::File { .. } => {
            proof {
                lemma_join_empty(acc@);
            }
        },
        Entry::Dir { children, .. } => {
            let o = visible_children(children, allowed, deny);
            let ghost acc0 = acc@;
            let mut k: usize = 0;
            proof {
                lemma_join_empty(acc@);
                assert(join(acc0, render(*d, 0, prefix@, rel@, av, dv)) == join(acc@, render(*d, k as int, prefix@, rel@, av, dv)));
            }
            while k < o.len()
                invariant
                    k <= o.len(),
                    d is Dir,
                    children == d->Dir_children,
                    o@ == visible(children@, av, dv),
                    av == views_of_chars(allowed@),
                    dv == views_of_chars(deny@),
                    join(acc0, render(*d, 0, prefix@, rel@, av, dv)) == join(acc@, render(*d, k as int, prefix@, rel@, av, dv)),
                decreases o.len() - k,
            {
                let j = o[k];
                if j >= children.len() {
                    // the order only holds indices of children
                    k = o.len();
                    proof {
                        lemma_join_empty(acc@);
                    }
                } else {
                    let ghost before = acc@;
                    let e = &children[j];
                    let name = chars_of(e.name().as_str());
                    let path = path_of(rel, &name);
                    append_chars(&mut acc.tree, prefix);
                    append_chars(&mut acc.tree, &glyph(k + 1 == o.len()));
                    append_chars(&mut acc.tree, &name);
                    acc.tree.push('\n');
                    let ghost line = Listing {
                        tree: prefix@ + branch(k == o.len() - 1) + name@ + seq!['\n'],
                        blocks: Seq::empty(),
                        errors: Seq::empty(),
                    };
                    proof {
                        assert(acc@.tree =~= before.tree + line.tree);
                        assert(acc@.blocks =~= before.blocks + line.blocks);
                        assert(acc@.errors =~= before.errors + line.errors);
                    }
                    let ghost after_line = acc@;
                    let ghost mut body = empty_listing();
                    match e {
                        Entry::Dir { listed, .. } => {
                            if *listed {
                                let mut p2: Vec<char> = Vec::new();
                                append_chars(&mut p2, prefix);
                                append_chars(&mut p2, &vec![' ', ' ', ' ', ' ']);
                                assert(p2@ =~= prefix@ + indent());
                                visit(e, &p2, &path, allowed, deny, acc);
                                proof {
                                    body = render(*e, 0, prefix@ + indent(), path@, av, dv);
                                }
                            } else {
                                acc.errors.push(string_of(&path));
                                assert(acc@.tree =~= after_line.tree);
                                assert(acc@.blocks =~= after_line.blocks);
                                assert(acc@.errors =~= after_line.errors + seq![path@]);
                                proof {
                                    body = Listing { tree: Seq::empty(), blocks: Seq::empty(), errors: seq![path@] };
                                }
                            }
                        },
                        Entry::File { content, .. } => {
                            match content {
                                Some(t) => {
                                    let ext = match extension(&name) {
                                        Some(x) => string_of(&x),
                                        None => String::new(),
                                    };
                                    assert(ext@ == ext_or_empty(name@));
                                    let stripped = remove_comments(t.as_str(), ext.as_str());
                                    let cleaned_text = remove_empty_lines(stripped.as_str());
                                    acc.blocks.push(FileBlock { path: string_of(&path), content: cleaned_text });
                                    assert(acc@.tree =~= after_line.tree);
                                    assert(acc@.blocks =~= after_line.blocks + seq![(path@, cleaned(t@, ext_or_empty(name@)))]);
                                    assert(acc@.errors =~= after_line.errors);
                                    proof {
                                        body = Listing { tree: Seq::empty(), blocks: seq![(path@, cleaned(t@, ext_or_empty(name@)))], errors: Seq::empty() };
                                    }
                                },
                                None => {
                                    acc.errors.push(string_of(&path));
                                    assert(acc@.tree =~= after_line.tree);
                                    assert(acc@.blocks =~= after_line.blocks);
                                    assert(acc@.errors =~= after_line.errors + seq![path@]);
                                    proof {
                                        body = Listing { tree: Seq::empty(), blocks: Seq::empty(), errors: seq![path@] };
                                    }
                                },
                            }
                        },
                    }
                    proof {
                        let rest = render(*d, k + 1, prefix@, rel@, av, dv);
                        assert(acc@ == join(after_line, body));
                        assert(after_line == join(before, line));
                        assert(render(*d, k as int, prefix@, rel@, av, dv) == join(join(line, body), rest));
                        lemma_join_assoc(before, line, body);
                        lemma_join_assoc(before, join(line, body), rest);
                    }
                    k = k + 1;
                }
            }
            proof {
                lemma_join_empty(acc@);
            }
        },
    }
}

proof fn lemma_keep_shown_props(c: Seq<Entry>, o: Seq<usize>, allowed: Seq<Seq<char>>, deny: Seq<Seq<char>>)
    ensures
        forall|k: int|
            0 <= k < keep_shown(c, o, allowed, deny).len() ==> (#[trigger] keep_shown(c, o, allowed, deny)[k]) < c.len()
                && shown(c[keep_shown(c, o, allowed, deny)[k] as int], allowed, deny),
    decreases o.len(),
{
    if o.len() > 0 {
        let prev = keep_shown(c, o.drop_last(), allowed, deny);
        let cur = keep_shown(c, o, allowed, deny);
        lemma_keep_shown_props(c, o.drop_last(), allowed, deny);
        assert forall|k: int| 0 <= k < cur.len() implies (#[trigger] cur[k]) < c.len() && shown(c[cur[k] as int], allowed, deny) by {
            if k < prev.len() {
                assert(cur[k] == prev[k]);
            }
        }
    }
}

/// Only shown entries get a line: every child that the tree lists (and so
/// every file that gets a block) is a directory whose name is not denied, or
/// a file whose extension is allowed.
pub proof fn lemma_visible_are_shown(c: Seq<Entry>, allowed: Seq<Seq<char>>, deny: Seq<Seq<char>>)
    ensures
        forall|k: int|
            0 <= k < visible(c, allowed, deny).len() ==> (#[trigger] visible(c, allowed, deny)[k]) < c.len()
                && shown(c[visible(c, allowed, deny)[k] as int], allowed, deny),
{
    lemma_keep_shown_props(c, sort_idx(keys_of(c), c.len()), allowed, deny);
}

proof fn lemma_keep_shown_same(
    c: Seq<Entry>,
    c2: Seq<Entry>,
    o: Seq<usize>,
    allowed: Seq<Seq<char>>,
    deny: Seq<Seq<char>>,
)
    requires
        c.len() == c2.len(),
        forall|i: int| 0 <= i < c.len() ==> shown(#[trigger] c[i], allowed, deny) == shown(c2[i], allowed, deny),
    ensures
        keep_shown(c, o, allowed, deny) == keep_shown(c2, o, allowed, deny),
    decreases o.len(),
{
    if o.len() > 0 {
        lemma_keep_shown_same(c, c2, o.drop_last(), allowed, deny);
    }
}

/// Deny precedence: what stands inside a denied directory never reaches the
/// output. Replacing a denied child directory of `d` by any other directory
/// of the same name (other entries, readable or not) changes nothing that
/// `d`'s children contribute.
pub proof fn lemma_denied_contents_ignored(
    d: Entry,
    d2: Entry,
    j: int,
    k: int,
    prefix: Seq<char>,
    rel: Seq<char>,
    allowed: Seq<Seq<char>>,
    deny: Seq<Seq<char>>,
)
    requires
        d is Dir,
        d2 is Dir,
        0 <= j < d->Dir_children@.len(),
        d->Dir_children@[j] is Dir,
        deny.contains(d->Dir_children@[j].name_view()),
        d2->Dir_children@ == d->Dir_children@.update(j, d2->Dir_children@[j]),
        d2->Dir_children@[j] is Dir,
        d2->Dir_children@[j].name_view() == d->Dir_children@[j].name_view(),
    ensures
        render(d, k, prefix, rel, allowed, deny) == render(d2, k, prefix, rel, allowed, deny),
    decreases visible(d->Dir_children@, allowed, deny).len() - k,
{
    let c = d->Dir_children@;
    let c2 = d2->Dir_children@;
    assert(keys_of(c) =~= keys_of(c2)) by {
        assert forall|i: int| 0 <= i < c.len() implies keys_of(c)[i] == keys_of(c2)[i] by {
            if i != j {
                assert(c2[i] == c[i]);
            }
        }
    }
    assert forall|i: int| 0 <= i < c.len() implies shown(#[trigger] c[i], allowed, deny) == shown(c2[i], allowed, deny) by {
        if i != j {
            assert(c2[i] == c[i]);
        }
    }
    lemma_keep_shown_same(c, c2, sort_idx(keys_of(c), c.len()), allowed, deny);
    let o = visible(c, allowed, deny);
    assert(o == visible(c2, allowed, deny));
    lemma_visible_are_shown(c, allowed, deny);
    if k >= 0 && k < o.len() {
        assert(o[k] != j);
        assert(c2[o[k] as int] == c[o[k] as int]);
        lemma_denied_contents_ignored(d, d2, j, k + 1, prefix, rel, allowed, deny);
    }
}

// ---- independence from the listing order ----

proof fn lemma_lt_irreflexive(a: Seq<char>, i: int)
    requires
        0 <= i,
    ensures
        !lt_from(a, a, i),
    decreases a.len() - i,
{
    if i < a.len() {
        lemma_lt_irreflexive(a, i + 1);
    }
}

proof fn lemma_lt_transitive(a: Seq<char>, b: Seq<char>, c: Seq<char>, i: int)
    requires
        0 <= i,
        lt_from(a, b, i),
        lt_from(b, c, i),
    ensures
        lt_from(a, c, i),
    decreases a.len() - i,
{
    if i < a.len() && i < b.len() && i < c.len() && a[i] == b[i] && b[i] == c[i] {
        lemma_lt_transitive(a, b, c, i + 1);
    }
}

proof fn lemma_lt_total(a: Seq<char>, b: Seq<char>, i: int)
    requires
        0 <= i <= a.len(),
        i <= b.len(),
        forall|t: int| 0 <= t < i ==> a[t] == b[t],
    ensures
        a == b || lt_from(a, b, i) || lt_from(b, a, i),
    decreases a.len() - i,
{
    if i == a.len() && i == b.len() {
        assert(a =~= b);
    } else if i < a.len() && i < b.len() && a[i] == b[i] {
        lemma_lt_total(a, b, i + 1);
    } else if i < a.len() && i < b.len() {
        vstd::utf8::char_u32_cast(a[i], a[i] as u32);
        vstd::utf8::char_u32_cast(b[i], b[i] as u32);
    }
}

/// Inserts `e` before the first entry whose name is greater.
pub open spec fn insert_entry(es: Seq<Entry>, e: Entry) -> Seq<Entry>
    decreases es.len(),
{
    if es.len() == 0 {
        seq![e]
    } else if name_lt(e.name_view(), es[0].name_view()) {
        seq![e] + es
    } else {
        seq![es[0]] + insert_entry(es.drop_first(), e)
    }
}

/// The entries sorted by name.
pub open spec fn sort_entries(c: Seq<Entry>) -> Seq<Entry>
    decreases c.len(),
{
    if c.len() == 0 {
        c
    } else {
        insert_entry(sort_entries(c.drop_last()), c.last())
    }
}

pub open spec fn entries_at(c: Seq<Entry>, o: Seq<usize>) -> Seq<Entry> {
    Seq::new(o.len(), |k: int| c[o[k] as int])
}

proof fn lemma_insert_idx_entries(c: Seq<Entry>, o: Seq<usize>, j: usize)
    requires
        j < c.len(),
        forall|q: int| 0 <= q < o.len() ==> (#[trigger] o[q]) < c.len(),
    ensures
        entries_at(c, insert_idx(keys_of(c), o, j)) == insert_entry(entries_at(c, o), c[j as int]),
    decreases o.len(),
{
    let keys = keys_of(c);
    if o.len() > 0 {
        let t = o.drop_first();
        assert forall|q: int| 0 <= q < t.len() implies (#[trigger] t[q]) < c.len() by {
            assert(t[q] == o[q + 1]);
        }
        lemma_insert_idx_entries(c, t, j);
        assert(entries_at(c, o).drop_first() =~= entries_at(c, t));
        if name_lt(keys[j as int], keys[o[0] as int]) {
            assert(entries_at(c, insert_idx(keys, o, j)) =~= seq![c[j as int]] + entries_at(c, o));
        } else {
            assert(entries_at(c, insert_idx(keys, o, j)) =~= seq![c[o[0] as int]] + entries_at(c, insert_idx(keys, t, j)));
        }
    } else {
        assert(entries_at(c, insert_idx(keys, o, j)) =~= seq![c[j as int]]);
    }
}

proof fn lemma_sort_idx_entries(c: Seq<Entry>, n: nat)
    requires
        n <= c.len() <= usize::MAX,
    ensures
        entries_at(c, sort_idx(keys_of(c), n)) == sort_entries(c.take(n as int)),
    decreases n,
{
    if n == 0 {
        assert(entries_at(c, sort_idx(keys_of(c), n)) =~= sort_entries(c.take(0)));
    } else {
        lemma_sort_idx_entries(c, (n - 1) as nat);
        lemma_sort_bounds(keys_of(c), (n - 1) as nat);
        lemma_insert_idx_entries(c, sort_idx(keys_of(c), (n - 1) as nat), (n - 1) as usize);
        assert(c.take(n as int).drop_last() =~= c.take(n - 1));
    }
}

proof fn lemma_insert_multiset(es: Seq<Entry>, e: Entry)
    ensures
        insert_entry(es, e).to_multiset() == es.to_multiset().insert(e),
        insert_entry(es, e).len() == es.len() + 1,
    decreases es.len(),
{
    broadcast use vstd::seq_lib::group_to_multiset_ensures;
    if es.len() > 0 {
        let t = es.drop_first();
        lemma_insert_multiset(t, e);
        assert(es =~= seq![es[0]] + t);
        vstd::seq_lib::lemma_multiset_commutative(seq![es[0]], t);
        vstd::seq_lib::lemma_multiset_commutative(seq![e], es);
        vstd::seq_lib::lemma_multiset_commutative(seq![es[0]], insert_entry(t, e));
        assert(seq![e].to_multiset() =~= Multiset::empty().insert(e));
        assert(seq![es[0]].to_multiset() =~= Multiset::empty().insert(es[0]));
    } else {
        assert(seq![e] =~= Seq::<Entry>::empty().push(e));
    }
}

proof fn lemma_sort_multiset(c: Seq<Entry>)
    ensures
        sort_entries(c).to_multiset() == c.to_multiset(),
        sort_entries(c).len() == c.len(),
    decreases c.len(),
{
    broadcast use vstd::seq_lib::group_to_multiset_ensures;
    if c.len() > 0 {
        lemma_sort_multiset(c.drop_last());
        lemma_insert_multiset(sort_entries(c.drop_last()), c.last());
        assert(c.drop_last().push(c.last()) =~= c);
    }
}

/// No entry comes after one with a greater name.
pub open spec fn name_sorted(es: Seq<Entry>) -> bool {
    forall|i: int, j: int| 0 <= i < j < es.len() ==> !name_lt(#[trigger] es[j].name_view(), #[trigger] es[i].name_view())
}

proof fn lemma_insert_sorted(es: Seq<Entry>, e: Entry)
    requires
        name_sorted(es),
    ensures
        name_sorted(insert_entry(es, e)),
    decreases es.len(),
{
    broadcast use vstd::seq_lib::group_to_multiset_ensures;
    let r = insert_entry(es, e);
    if es.len() > 0 {
        let t = es.drop_first();
        if name_lt(e.name_view(), es[0].name_view()) {
            assert forall|i: int, j: int| 0 <= i < j < r.len() implies !name_lt(#[trigger] r[j].name_view(), #[trigger] r[i].name_view()) by {
                if i == 0 {
                    assert(r[j] == es[j - 1]);
                    if name_lt(r[j].name_view(), e.name_view()) {
                        lemma_lt_transitive(r[j].name_view(), e.name_view(), es[0].name_view(), 0);
                        if j - 1 == 0 {
                            lemma_lt_irreflexive(es[0].name_view(), 0);
                        }
                    }
                } else {
                    assert(r[i] == es[i - 1]);
                    assert(r[j] == es[j - 1]);
                }
            }
        } else {
            lemma_insert_sorted(t, e);
            lemma_insert_multiset(t, e);
            let it = insert_entry(t, e);
            assert forall|i: int, j: int| 0 <= i < j < r.len() implies !name_lt(#[trigger] r[j].name_view(), #[trigger] r[i].name_view()) by {
                if i == 0 {
                    assert(r[0] == es[0]);
                    assert(r[j] == it[j - 1]);
                    assert(it.to_multiset().count(it[j - 1]) > 0);
                    assert(t.to_multiset().insert(e).count(it[j - 1]) > 0);
                    if it[j - 1] != e {
                        assert(t.to_multiset().count(it[j - 1]) > 0);
                        assert(t.contains(it[j - 1]));
                        let q = choose|q: int| 0 <= q < t.len() && t[q] == it[j - 1];
                        assert(es[q + 1] == t[q]);
                    }
                } else {
                    assert(r[i] == it[i - 1]);
                    assert(r[j] == it[j - 1]);
                }
            }
        }
    }
}

proof fn lemma_sort_sorted(c: Seq<Entry>)
    ensures
        name_sorted(sort_entries(c)),
    decreases c.len(),
{
    if c.len() > 0 {
        lemma_sort_sorted(c.drop_last());
        lemma_insert_sorted(sort_entries(c.drop_last()), c.last());
    }
}

/// No two entries share a name.
pub open spec fn distinct_names(c: Seq<Entry>) -> bool {
    forall|i: int, j: int| 0 <= i < j < c.len() ==> (#[trigger] c[i]).name_view() != (#[trigger] c[j]).name_view()
}

/// Within `m`, an entry is determined by its name.
pub open spec fn names_determine(m: Multiset<Entry>) -> bool {
    forall|a: Entry, b: Entry|
        #![trigger m.count(a), m.count(b)]
        m.count(a) > 0 && m.count(b) > 0 && a.name_view() == b.name_view() ==> a == b
}

proof fn lemma_sorted_unique(x: Seq<Entry>, y: Seq<Entry>)
    requires
        name_sorted(x),
        name_sorted(y),
        x.to_multiset() == y.to_multiset(),
        names_determine(x.to_multiset()),
    ensures
        x == y,
    decreases x.len(),
{
    broadcast use vstd::seq_lib::group_to_multiset_ensures;
    if x.len() == 0 {
        assert(y.to_multiset().len() == 0);
        assert(y =~= x);
    } else {
        assert(y.len() > 0) by {
            assert(x.to_multiset().count(x[0]) > 0);
            assert(y.contains(x[0]));
        }
        let a = x.last();
        let b = y.last();
        assert(x =~= x.drop_last().push(a));
        assert(y =~= y.drop_last().push(b));
        assert(x.to_multiset().count(a) > 0);
        assert(y.contains(a));
        let p = choose|p: int| 0 <= p < y.len() && y[p] == a;
        assert(x.to_multiset().count(b) > 0);
        assert(x.contains(b));
        let q = choose|q: int| 0 <= q < x.len() && x[q] == b;
        if p < y.len() - 1 {
            assert(!name_lt(y[y.len() - 1].name_view(), y[p].name_view()));
        }
        if q < x.len() - 1 {
            assert(!name_lt(x[x.len() - 1].name_view(), x[q].name_view()));
        }
        lemma_lt_total(a.name_view(), b.name_view(), 0);
        assert(a == b);
        let x0 = x.drop_last();
        let y0 = y.drop_last();
        assert(x0.to_multiset() =~= x.to_multiset().remove(a));
        assert(y0.to_multiset() =~= y.to_multiset().remove(a));
        assert forall|e1: Entry, e2: Entry|
            #![trigger x0.to_multiset().count(e1), x0.to_multiset().count(e2)]
            x0.to_multiset().count(e1) > 0 && x0.to_multiset().count(e2) > 0 && e1.name_view()
                == e2.name_view() implies e1 == e2 by {
            assert(x.to_multiset().count(e1) > 0);
            assert(x.to_multiset().count(e2) > 0);
        }
        lemma_sorted_unique(x0, y0);
    }
}

/// The shown entries of `es`, in order.
pub open spec fn keep_shown_entries(es: Seq<Entry>, allowed: Seq<Seq<char>>, deny: Seq<Seq<char>>) -> Seq<Entry>
    decreases es.len(),
{
    if es.len() == 0 {
        es
    } else {
        let k = keep_shown_entries(es.drop_last(), allowed, deny);
        if shown(es.last(), allowed, deny) {
            k.push(es.last())
        } else {
            k
        }
    }
}

proof fn lemma_keep_shown_entries(c: Seq<Entry>, o: Seq<usize>, allowed: Seq<Seq<char>>, deny: Seq<Seq<char>>)
    requires
        forall|q: int| 0 <= q < o.len() ==> (#[trigger] o[q]) < c.len(),
    ensures
        entries_at(c, keep_shown(c, o, allowed, deny)) == keep_shown_entries(entries_at(c, o), allowed, deny),
    decreases o.len(),
{
    if o.len() > 0 {
        let o0 = o.drop_last();
        lemma_keep_shown_entries(c, o0, allowed, deny);
        assert(entries_at(c, o).drop_last() =~= entries_at(c, o0));
        let k0 = keep_shown(c, o0, allowed, deny);
        assert(entries_at(c, k0.push(o.last())) =~= entries_at(c, k0).push(c[o.last() as int]));
    } else {
        assert(entries_at(c, keep_shown(c, o, allowed, deny)) =~= keep_shown_entries(entries_at(c, o), allowed, deny));
    }
}

proof fn lemma_distinct_determines(c: Seq<Entry>)
    requires
        distinct_names(c),
    ensures
        names_determine(c.to_multiset()),
{
    broadcast use vstd::seq_lib::group_to_multiset_ensures;
    assert forall|a: Entry, b: Entry|
        #![trigger c.to_multiset().count(a), c.to_multiset().count(b)]
        c.to_multiset().count(a) > 0 && c.to_multiset().count(b) > 0 && a.name_view() == b.name_view() implies a == b by {
        assert(c.contains(a));
        assert(c.contains(b));
        let i = choose|i: int| 0 <= i < c.len() && c[i] == a;
        let j = choose|j: int| 0 <= j < c.len() && c[j] == b;
        if i < j {
            assert(c[i].name_view() != c[j].name_view());
        } else if j < i {
            assert(c[j].name_view() != c[i].name_view());
        }
    }
}

proof fn lemma_visible_entries(c: Seq<Entry>, allowed: Seq<Seq<char>>, deny: Seq<Seq<char>>)
    requires
        c.len() <= usize::MAX,
    ensures
        entries_at(c, visible(c, allowed, deny)) == keep_shown_entries(sort_entries(c), allowed, deny),
{
    lemma_sort_bounds(keys_of(c), c.len());
    lemma_keep_shown_entries(c, sort_idx(keys_of(c), c.len()), allowed, deny);
    lemma_sort_idx_entries(c, c.len());
    assert(c.take(c.len() as int) =~= c);
}

/// Determinism: the output does not depend on the order in which a
/// directory's entries were listed. Two directories holding the same entries,
/// whose names are distinct as in any real directory, contribute the same
/// tree lines, blocks and errors.
pub proof fn lemma_listing_order_irrelevant(
    d: Entry,
    d2: Entry,
    k: int,
    prefix: Seq<char>,
    rel: Seq<char>,
    allowed: Seq<Seq<char>>,
    deny: Seq<Seq<char>>,
)
    requires
        d is Dir,
        d2 is Dir,
        d->Dir_children@.len() <= usize::MAX,
        d2->Dir_children@.len() <= usize::MAX,
        d->Dir_children@.to_multiset() == d2->Dir_children@.to_multiset(),
        distinct_names(d->Dir_children@),
    ensures
        render(d, k, prefix, rel, allowed, deny) == render(d2, k, prefix, rel, allowed, deny),
    decreases visible(d->Dir_children@, allowed, deny).len() - k,
{
    let c = d->Dir_children@;
    let c2 = d2->Dir_children@;
    lemma_sort_multiset(c);
    lemma_sort_multiset(c2);
    lemma_sort_sorted(c);
    lemma_sort_sorted(c2);
    lemma_distinct_determines(c);
    lemma_sorted_unique(sort_entries(c), sort_entries(c2));
    lemma_visible_entries(c, allowed, deny);
    lemma_visible_entries(c2, allowed, deny);
    let o = visible(c, allowed, deny);
    let o2 = visible(c2, allowed, deny);
    assert(entries_at(c, o) == entries_at(c2, o2));
    assert(o.len() == entries_at(c, o).len());
    lemma_visible_are_shown(c, allowed, deny);
    lemma_visible_are_shown(c2, allowed, deny);
    if k >= 0 && k < o.len() {
        assert(entries_at(c, o)[k] == c[o[k] as int]);
        assert(entries_at(c2, o2)[k] == c2[o2[k] as int]);
        lemma_listing_order_irrelevant(d, d2, k + 1, prefix, rel, allowed, deny);
    }
}

/// Why a walk could not start.
#[derive(Debug, Clone, Copy, PartialEq, Eq)]
pub enum WalkError {
    /// The root is a file, not a directory.
    NotADirectory,
    /// The root directory's entries could not be read.
    Unreadable,
}

/// Walks a snapshot rooted at `root` (whose name is the root path): renders
/// the tree and collects a block for every admitted file, visiting the
/// entries of each directory in name order. Directories named in
/// `deny_dirs` are left out with everything below them; files are admitted
/// only when their extension is in `allowed_extensions`. An unreadable
/// directory or file below the root is reported in `errors` and the walk
/// goes on.
pub fn walk(root: &Entry, allowed_extensions: &Vec<String>, deny_dirs: &Vec<String>) -> (r: Result<
    Walk,
    WalkError,
>)
    ensures
        root is File ==> r == Err::<Walk, WalkError>(WalkError::NotADirectory),
        root is Dir && !root->Dir_listed ==> r == Err::<Walk, WalkError>(WalkError::Unreadable),
        root is Dir && root->Dir_listed ==> r is Ok && r->Ok_0@ == walk_listing(
            *root,
            views_of(allowed_extensions@),
            views_of(deny_dirs@),
        ),
{
    match root {
        Entry::File { .. } => Err(WalkError::NotADirectory),
        Entry::Dir { name, listed, .. } => {
            if !*listed {
                return Err(WalkError::Unreadable);
            }
            let allowed = char_lists(allowed_extensions);
            let deny = char_lists(deny_dirs);
            assert(views_of_chars(allowed@) =~= views_of(allowed_extensions@));
            assert(views_of_chars(deny@) =~= views_of(deny_dirs@));
            let mut acc = Acc { tree: chars_of(name.as_str()), blocks: Vec::new(), errors: Vec::new() };
            acc.tree.push('\n');
            proof {
                assert(acc@.blocks =~= Seq::<(Seq<char>, Seq<char>)>::empty());
                assert(acc@.errors =~= Seq::<Seq<char>>::empty());
            }
            let ghost first = acc@;
            assert(first.tree =~= root.name_view() + seq!['\n']);
            assert(first == Listing { tree: root.name_view() + seq!['\n'], blocks: Seq::empty(), errors: Seq::empty() });
            let top: Vec<char> = Vec::new();
            visit(root, &top, &top, &allowed, &deny, &mut acc);
            assert(top@ =~= Seq::<char>::empty());
            let w = Walk { tree: string_of(&acc.tree), blocks: acc.blocks, errors: acc.errors };
            assert(w@ == acc@);
            Ok(w)
        },
    }
}

/// A directory of this name is left out of the walk.
pub fn denies_dir(name: &str, deny_dirs: &Vec<String>) -> (r: bool)
    ensures
        r == views_of(deny_dirs@).contains(name@),
{
    let deny = char_lists(deny_dirs);
    assert(views_of_chars(deny@) =~= views_of(deny_dirs@));
    in_list(&deny, &chars_of(name))
}

/// A file of this name is admitted: it has an extension, and the extension
/// is allowed.
pub fn admits_file(name: &str, allowed_extensions: &Vec<String>) -> (r: bool)
    ensures
        r == match extension_of(name@) {
            Some(x) => views_of(allowed_extensions@).contains(x),
            None => false,
        },
{
    let allowed = char_lists(allowed_extensions);
    assert(views_of_chars(allowed@) =~= views_of(allowed_extensions@));
    match extension(&chars_of(name)) {
        Some(x) => in_list(&allowed, &x),
        None => false,
    }
}

} // verus!
