//! Unix path rules as `std::path` has them:
//! joining, splitting into components, prefix tests, equality and order.
//!
//! Only `/` separates components here. Windows paths, with their `\`
//! separators and their prefixes (`C:`, `\\server\share`), are not
//! modelled: these functions take `\` as an ordinary character and a prefix
//! as part of a name, so on Windows they differ from `std::path`.

use vstd::prelude::*;

verus! {

/// `s` is non-empty and its first character is `c`.
pub open spec fn starts_with_char(s: Seq<char>, c: char) -> bool {
    s.len() > 0 && s[0] == c
}

/// `base.join(rel)` on Unix: an absolute `rel` replaces `base`; otherwise a
/// separator is put between them unless `base` is empty or already ends in one.
pub open spec fn join_spec(base: Seq<char>, rel: Seq<char>) -> Seq<char> {
    if starts_with_char(rel, '/') {
        rel
    } else if base.len() == 0 || base.last() == '/' {
        base + rel
    } else {
        base + seq!['/'] + rel
    }
}

/// Whether the first character of `s` is `c`.
pub fn first_char_is(s: &str, c: char) -> (b: bool)
    ensures
        b == starts_with_char(s@, c),
{
    let n = s.unicode_len();
    n > 0 && s.get_char(0) == c
}

/// Whether two strings are equal.
pub fn str_eq(a: &str, b: &str) -> (r: bool)
    ensures
        r == (a@ == b@),
{
    a.to_owned() == b.to_owned()
}

/// Joins `rel` onto `base` as `Path::join` does on Unix.
pub fn join(base: &str, rel: &str) -> (res: String)
    ensures
        res@ == join_spec(base@, rel@),
{
    if first_char_is(rel, '/') {
        return rel.to_owned();
    }
    let bn = base.unicode_len();
    let mut res = base.to_owned();
    if bn > 0 && base.get_char(bn - 1) != '/' {
        res.append("/");
        proof {
            reveal_strlit("/");
        }
    }
    res.append(rel);
    res
}


/// A component of a path, as `std::path::Component` has it on Unix.
pub enum Comp {
    Root,
    Cur,
    Parent,
    Normal(Seq<char>),
}

/// The component of one segment between separators: none for an empty
/// segment or `.`, `Parent` for `..`, else a normal one.
pub open spec fn segment_comps(seg: Seq<char>) -> Seq<Comp> {
    if seg.len() == 0 || seg == seq!['.'] {
        Seq::empty()
    } else if seg == seq!['.', '.'] {
        seq![Comp::Parent]
    } else {
        seq![Comp::Normal(seg)]
    }
}

/// The components of the segments of `p`, where `cur` is the part of the
/// current segment already read.
pub open spec fn body_comps(p: Seq<char>, cur: Seq<char>) -> Seq<Comp>
    decreases p.len(),
{
    if p.len() == 0 {
        segment_comps(cur)
    } else if p[0] == '/' {
        segment_comps(cur) + body_comps(p.drop_first(), Seq::empty())
    } else {
        body_comps(p.drop_first(), cur.push(p[0]))
    }
}

/// A leading `.` segment is kept as `Cur` in a relative path.
pub open spec fn has_cur_dir(p: Seq<char>) -> bool {
    !starts_with_char(p, '/') && starts_with_char(p, '.') && (p.len() == 1 || p[1] == '/')
}

/// The components of `p`: the root, a leading `.`, then each non-empty
/// segment other than `.`.
pub open spec fn components(p: Seq<char>) -> Seq<Comp> {
    let root: Seq<Comp> = if starts_with_char(p, '/') { seq![Comp::Root] } else { Seq::empty() };
    let cur: Seq<Comp> = if has_cur_dir(p) { seq![Comp::Cur] } else { Seq::empty() };
    root + cur + body_comps(p, Seq::empty())
}

/// An executable path component.
pub enum Component {
    RootDir,
    CurDir,
    ParentDir,
    Normal(String),
}

impl View for Component {
    type V = Comp;

    open spec fn view(&self) -> Comp {
        match self {
            Component::RootDir => Comp::Root,
            Component::CurDir => Comp::Cur,
            Component::ParentDir => Comp::Parent,
            Component::Normal(s) => Comp::Normal(s@),
        }
    }
}

/// The plain values of a list of components.
pub open spec fn comps_view(v: Seq<Component>) -> Seq<Comp> {
    v.map_values(|c: Component| c@)
}

/// Appends the component of the segment `p[start..end]`, if it has one.
fn push_segment(out: &mut Vec<Component>, p: &str, start: usize, end: usize)
    requires
        start <= end <= p@.len(),
    ensures
        comps_view(final(out)@) == comps_view(old(out)@) + segment_comps(p@.subrange(start as int, end as int)),
{
    let seg = p.substring_char(start, end);
    let ghost sv = p@.subrange(start as int, end as int);
    let n = end - start;
    let ghost before = out@;
    if n == 0 || (n == 1 && seg.get_char(0) == '.') {
        assert(n == 1 ==> sv =~= seq!['.']);
        assert(comps_view(out@) + segment_comps(sv) =~= comps_view(out@));
        return;
    }
    if n == 2 && seg.get_char(0) == '.' && seg.get_char(1) == '.' {
        assert(sv =~= seq!['.', '.']);
        out.push(Component::ParentDir);
        assert(comps_view(out@) =~= comps_view(before) + seq![Comp::Parent]);
        return;
    }
    assert(sv != seq!['.']) by {
        if n == 1 {
            assert(sv[0] == seg@[0]);
        }
    }
    assert(sv != seq!['.', '.']) by {
        if n == 2 {
            assert(sv[0] == seg@[0] && sv[1] == seg@[1]);
        }
    }
    out.push(Component::Normal(seg.to_owned()));
    assert(comps_view(out@) =~= comps_view(before) + seq![Comp::Normal(sv)]);
}

/// Splits `p` into its components, as `Path::components` does on Unix.
pub fn path_components(p: &str) -> (res: Vec<Component>)
    ensures
        comps_view(res@) == components(p@),
{
    let n = p.unicode_len();
    let mut out: Vec<Component> = Vec::new();
    let rooted = first_char_is(p, '/');
    if rooted {
        out.push(Component::RootDir);
    } else if n > 0 && p.get_char(0) == '.' && (n == 1 || p.get_char(1) == '/') {
        out.push(Component::CurDir);
    }
    let ghost head = comps_view(out@);
    assert(head =~= (if starts_with_char(p@, '/') { seq![Comp::Root] } else { Seq::<Comp>::empty() }) + (if has_cur_dir(
        p@,
    ) { seq![Comp::Cur] } else { Seq::<Comp>::empty() }));
    let mut start: usize = 0;
    let mut i: usize = 0;
    assert(p@.skip(0) =~= p@);
    assert(p@.subrange(0, 0) =~= Seq::<char>::empty());
    while i < n
        invariant
            n == p@.len(),
            start <= i <= n,
            comps_view(out@) + body_comps(p@.skip(i as int), p@.subrange(start as int, i as int))
                == head + body_comps(p@, Seq::empty()),
        decreases n - i,
    {
        let c = p.get_char(i);
        let ghost rest = p@.skip(i as int);
        assert(rest.drop_first() =~= p@.skip(i + 1));
        if c == '/' {
            let ghost seg = p@.subrange(start as int, i as int);
            push_segment(&mut out, p, start, i);
            assert(body_comps(rest, seg) == segment_comps(seg) + body_comps(p@.skip(i + 1), Seq::empty()));
            start = i + 1;
            assert(p@.subrange(start as int, start as int) =~= Seq::<char>::empty());
            assert(comps_view(out@) + body_comps(p@.skip(i + 1), Seq::empty()) =~= head + body_comps(
                p@,
                Seq::empty(),
            ));
        } else {
            assert(p@.subrange(start as int, i as int).push(c) =~= p@.subrange(start as int, i + 1));
        }
        i += 1;
    }
    let ghost seg = p@.subrange(start as int, n as int);
    assert(p@.skip(n as int) =~= Seq::<char>::empty());
    push_segment(&mut out, p, start, n);
    assert(comps_view(out@) =~= head + body_comps(p@, Seq::empty()));
    out
}


/// Whether two components are the same.
pub fn component_eq(a: &Component, b: &Component) -> (r: bool)
    ensures
        r == (a@ == b@),
{
    match (a, b) {
        (Component::RootDir, Component::RootDir) => true,
        (Component::CurDir, Component::CurDir) => true,
        (Component::ParentDir, Component::ParentDir) => true,
        (Component::Normal(x), Component::Normal(y)) => *x == *y,
        _ => false,
    }
}

/// `a` is a prefix of `b`.
pub open spec fn is_prefix<A>(a: Seq<A>, b: Seq<A>) -> bool {
    a.len() <= b.len() && b.take(a.len() as int) == a
}

/// Whether the components of `a` begin with those of `b`.
fn components_start_with(a: &Vec<Component>, b: &Vec<Component>) -> (r: bool)
    ensures
        r == is_prefix(comps_view(b@), comps_view(a@)),
{
    let n = b.len();
    if n > a.len() {
        return false;
    }
    let mut i: usize = 0;
    while i < n
        invariant
            n == b@.len(),
            n <= a@.len(),
            i <= n,
            forall|j: int| 0 <= j < i ==> a@[j]@ == b@[j]@,
        decreases n - i,
    {
        if !component_eq(&a[i], &b[i]) {
            assert(comps_view(a@).take(n as int)[i as int] != comps_view(b@)[i as int]);
            return false;
        }
        i += 1;
    }
    assert(comps_view(a@).take(n as int) =~= comps_view(b@));
    true
}

/// Whether `path` starts with `base` as `Path::starts_with` has it: the
/// components of `base` begin those of `path`.
pub fn path_starts_with(path: &str, base: &str) -> (r: bool)
    ensures
        r == is_prefix(components(base@), components(path@)),
{
    let a = path_components(path);
    let b = path_components(base);
    components_start_with(&a, &b)
}

/// Whether two paths are equal as `Path`s are: component by component.
pub fn path_eq(a: &str, b: &str) -> (r: bool)
    ensures
        r == (components(a@) == components(b@)),
{
    let x = path_components(a);
    let y = path_components(b);
    if x.len() != y.len() {
        assert(comps_view(x@).len() != comps_view(y@).len());
        return false;
    }
    let r = components_start_with(&x, &y);
    proof {
        assert(comps_view(x@).len() == comps_view(y@).len());
        assert(comps_view(x@).take(comps_view(y@).len() as int) =~= comps_view(x@));
    }
    r
}


/// The segments after a separator add their components after those before it.
pub proof fn lemma_body_comps_concat(a: Seq<char>, b: Seq<char>, cur: Seq<char>)
    ensures
        body_comps(a + seq!['/'] + b, cur) == body_comps(a, cur) + body_comps(b, Seq::empty()),
    decreases a.len(),
{
    let whole = a + seq!['/'] + b;
    if a.len() == 0 {
        assert(whole =~= seq!['/'] + b);
        assert(whole.drop_first() =~= b);
    } else {
        assert(whole.drop_first() =~= a.drop_first() + seq!['/'] + b);
        if a[0] == '/' {
            lemma_body_comps_concat(a.drop_first(), b, Seq::empty());
            assert(body_comps(a, cur) == segment_comps(cur) + body_comps(a.drop_first(), Seq::empty()));
            assert(segment_comps(cur) + (body_comps(a.drop_first(), Seq::empty()) + body_comps(b, Seq::empty()))
                =~= segment_comps(cur) + body_comps(a.drop_first(), Seq::empty()) + body_comps(b, Seq::empty()));
        } else {
            lemma_body_comps_concat(a.drop_first(), b, cur.push(a[0]));
        }
    }
}

/// Joining a relative path onto `base` gives a path that starts with `base`:
/// what is linked from inside a directory is recognized as being inside it.
pub proof fn lemma_join_starts_with(base: Seq<char>, rel: Seq<char>)
    requires
        !starts_with_char(rel, '/'),
    ensures
        is_prefix(components(base), components(join_spec(base, rel))),
{
    let j = join_spec(base, rel);
    if base.len() == 0 {
        assert(components(base) =~= Seq::<Comp>::empty());
        assert(j.take(0) =~= Seq::<char>::empty());
        assert(components(j).take(0) =~= components(base));
    } else {
        let b0 = if base.last() == '/' { base.drop_last() } else { base };
        assert(j =~= b0 + seq!['/'] + rel);
        lemma_body_comps_concat(b0, rel, Seq::empty());
        if base.last() == '/' {
            assert(base =~= b0 + seq!['/'] + Seq::<char>::empty());
            lemma_body_comps_concat(b0, Seq::<char>::empty(), Seq::empty());
            assert(body_comps(Seq::<char>::empty(), Seq::empty()) =~= Seq::<Comp>::empty());
            assert(body_comps(b0, Seq::empty()) + Seq::<Comp>::empty() =~= body_comps(b0, Seq::empty()));
        }
        assert(j[0] == base[0]);
        assert(base.len() >= 2 ==> j[1] == base[1]);
        assert(base.len() == 1 && base.last() != '/' ==> j[1] == '/');
        assert(has_cur_dir(j) == has_cur_dir(base));
        let head: Seq<Comp> = (if starts_with_char(base, '/') { seq![Comp::Root] } else { Seq::<Comp>::empty() })
            + (if has_cur_dir(base) { seq![Comp::Cur] } else { Seq::<Comp>::empty() });
        assert(components(base) =~= head + body_comps(b0, Seq::empty()));
        assert(components(j) =~= head + body_comps(b0, Seq::empty()) + body_comps(rel, Seq::empty()));
        assert(components(j).take(components(base).len() as int) =~= components(base));
    }
}


/// Characters compare by code point: -1, 0 or 1.
pub open spec fn char_order(a: char, b: char) -> int {
    if (a as u32) < (b as u32) {
        -1
    } else if (a as u32) > (b as u32) {
        1
    } else {
        0
    }
}

/// Strings compare character by character; a proper prefix comes first.
pub open spec fn chars_order(s: Seq<char>, t: Seq<char>) -> int
    decreases s.len(),
{
    if s.len() == 0 {
        if t.len() == 0 {
            0
        } else {
            -1
        }
    } else if t.len() == 0 {
        1
    } else if char_order(s[0], t[0]) != 0 {
        char_order(s[0], t[0])
    } else {
        chars_order(s.drop_first(), t.drop_first())
    }
}

/// The order of component kinds: root, `.`, `..`, then normal components.
pub open spec fn comp_rank(c: Comp) -> int {
    match c {
        Comp::Root => 0,
        Comp::Cur => 1,
        Comp::Parent => 2,
        Comp::Normal(_) => 3,
    }
}

/// Components compare by kind, and normal ones by their text.
pub open spec fn comp_order(a: Comp, b: Comp) -> int {
    match (a, b) {
        (Comp::Normal(x), Comp::Normal(y)) => chars_order(x, y),
        _ => if comp_rank(a) < comp_rank(b) {
            -1
        } else if comp_rank(a) > comp_rank(b) {
            1
        } else {
            0
        },
    }
}

/// Component lists compare component by component; a proper prefix comes first.
pub open spec fn comps_order(a: Seq<Comp>, b: Seq<Comp>) -> int
    decreases a.len(),
{
    if a.len() == 0 {
        if b.len() == 0 {
            0
        } else {
            -1
        }
    } else if b.len() == 0 {
        1
    } else if comp_order(a[0], b[0]) != 0 {
        comp_order(a[0], b[0])
    } else {
        comps_order(a.drop_first(), b.drop_first())
    }
}

/// Paths compare as `Path`s do: by their components.
pub open spec fn path_order_spec(p: Seq<char>, q: Seq<char>) -> int {
    comps_order(components(p), components(q))
}

proof fn lemma_char_order(a: char, b: char, c: char)
    ensures
        char_order(a, b) == -char_order(b, a),
        char_order(a, b) == 0 <==> a == b,
        char_order(a, b) <= 0 && char_order(b, c) <= 0 ==> char_order(a, c) <= 0,
        char_order(a, b) < 0 && char_order(b, c) <= 0 ==> char_order(a, c) < 0,
        char_order(a, b) <= 0 && char_order(b, c) < 0 ==> char_order(a, c) < 0,
{
}

/// The order of strings is antisymmetric and tells equal strings.
pub proof fn lemma_chars_order_antisym(s: Seq<char>, t: Seq<char>)
    ensures
        chars_order(s, t) == -chars_order(t, s),
        -1 <= chars_order(s, t) <= 1,
        chars_order(s, t) == 0 <==> s == t,
    decreases s.len(),
{
    if s.len() == 0 && t.len() == 0 {
        assert(s =~= t);
    }
    if s.len() > 0 && t.len() > 0 {
        lemma_char_order(s[0], t[0], s[0]);
        lemma_chars_order_antisym(s.drop_first(), t.drop_first());
        if s[0] == t[0] && s.drop_first() == t.drop_first() {
            assert(s =~= seq![s[0]] + s.drop_first());
            assert(t =~= seq![t[0]] + t.drop_first());
        }
    }
}

/// The order of strings is transitive.
pub proof fn lemma_chars_order_trans(s: Seq<char>, t: Seq<char>, u: Seq<char>)
    ensures
        chars_order(s, t) <= 0 && chars_order(t, u) <= 0 ==> chars_order(s, u) <= 0,
        chars_order(s, t) < 0 && chars_order(t, u) <= 0 ==> chars_order(s, u) < 0,
        chars_order(s, t) <= 0 && chars_order(t, u) < 0 ==> chars_order(s, u) < 0,
    decreases s.len(),
{
    if s.len() > 0 && t.len() > 0 && u.len() > 0 {
        lemma_char_order(s[0], t[0], u[0]);
        lemma_chars_order_trans(s.drop_first(), t.drop_first(), u.drop_first());
    }
}

proof fn lemma_comp_order(a: Comp, b: Comp, c: Comp)
    ensures
        comp_order(a, b) == -comp_order(b, a),
        -1 <= comp_order(a, b) <= 1,
        comp_order(a, b) == 0 <==> a == b,
        comp_order(a, b) <= 0 && comp_order(b, c) <= 0 ==> comp_order(a, c) <= 0,
        comp_order(a, b) < 0 && comp_order(b, c) <= 0 ==> comp_order(a, c) < 0,
        comp_order(a, b) <= 0 && comp_order(b, c) < 0 ==> comp_order(a, c) < 0,
{
    match (a, b, c) {
        (Comp::Normal(x), Comp::Normal(y), Comp::Normal(z)) => {
            lemma_chars_order_antisym(x, y);
            lemma_chars_order_trans(x, y, z);
        },
        (Comp::Normal(x), Comp::Normal(y), _) => {
            lemma_chars_order_antisym(x, y);
        },
        _ => {},
    }
}

/// The order of component lists is antisymmetric and tells equal lists.
pub proof fn lemma_comps_order_antisym(a: Seq<Comp>, b: Seq<Comp>)
    ensures
        comps_order(a, b) == -comps_order(b, a),
        -1 <= comps_order(a, b) <= 1,
        comps_order(a, b) == 0 <==> a == b,
    decreases a.len(),
{
    if a.len() == 0 && b.len() == 0 {
        assert(a =~= b);
    }
    if a.len() > 0 && b.len() > 0 {
        lemma_comp_order(a[0], b[0], a[0]);
        lemma_comps_order_antisym(a.drop_first(), b.drop_first());
        if a[0] == b[0] && a.drop_first() == b.drop_first() {
            assert(a =~= seq![a[0]] + a.drop_first());
            assert(b =~= seq![b[0]] + b.drop_first());
        }
    }
}

/// The order of component lists is transitive.
pub proof fn lemma_comps_order_trans(a: Seq<Comp>, b: Seq<Comp>, c: Seq<Comp>)
    ensures
        comps_order(a, b) <= 0 && comps_order(b, c) <= 0 ==> comps_order(a, c) <= 0,
        comps_order(a, b) < 0 && comps_order(b, c) <= 0 ==> comps_order(a, c) < 0,
        comps_order(a, b) <= 0 && comps_order(b, c) < 0 ==> comps_order(a, c) < 0,
    decreases a.len(),
{
    if a.len() > 0 && b.len() > 0 && c.len() > 0 {
        lemma_comp_order(a[0], b[0], c[0]);
        lemma_comps_order_trans(a.drop_first(), b.drop_first(), c.drop_first());
    }
}


/// How two characters compare: -1, 0 or 1.
fn char_order_exec(a: char, b: char) -> (r: i32)
    ensures
        r == char_order(a, b),
{
    let x = a as u32;
    let y = b as u32;
    if x < y {
        -1
    } else if x > y {
        1
    } else {
        0
    }
}

/// How two strings compare, character by character.
pub fn string_order(s: &str, t: &str) -> (r: i32)
    ensures
        r == chars_order(s@, t@),
{
    let n = s.unicode_len();
    let m = t.unicode_len();
    let mut i: usize = 0;
    assert(s@.skip(0) =~= s@ && t@.skip(0) =~= t@);
    while i < n && i < m
        invariant
            n == s@.len(),
            m == t@.len(),
            i <= n,
            i <= m,
            chars_order(s@, t@) == chars_order(s@.skip(i as int), t@.skip(i as int)),
        decreases n - i,
    {
        let c = char_order_exec(s.get_char(i), t.get_char(i));
        if c != 0 {
            return c;
        }
        assert(s@.skip(i as int).drop_first() =~= s@.skip(i + 1));
        assert(t@.skip(i as int).drop_first() =~= t@.skip(i + 1));
        i += 1;
    }
    if i == n {
        if i == m {
            0
        } else {
            -1
        }
    } else {
        1
    }
}

/// The rank of a component kind.
fn comp_rank_exec(c: &Component) -> (r: i32)
    ensures
        r == comp_rank(c@),
{
    match c {
        Component::RootDir => 0,
        Component::CurDir => 1,
        Component::ParentDir => 2,
        Component::Normal(_) => 3,
    }
}

/// How two components compare.
fn component_order(a: &Component, b: &Component) -> (r: i32)
    ensures
        r == comp_order(a@, b@),
{
    match (a, b) {
        (Component::Normal(x), Component::Normal(y)) => string_order(x.as_str(), y.as_str()),
        _ => {
            let ra = comp_rank_exec(a);
            let rb = comp_rank_exec(b);
            if ra < rb {
                -1
            } else if ra > rb {
                1
            } else {
                0
            }
        },
    }
}

/// How two component lists compare, component by component.
pub fn components_order(a: &Vec<Component>, b: &Vec<Component>) -> (r: i32)
    ensures
        r == comps_order(comps_view(a@), comps_view(b@)),
{
    let ghost x = comps_view(a@);
    let ghost y = comps_view(b@);
    let n = a.len();
    let m = b.len();
    let mut i: usize = 0;
    assert(x.skip(0) =~= x && y.skip(0) =~= y);
    while i < n && i < m
        invariant
            n == x.len(),
            m == y.len(),
            x == comps_view(a@),
            y == comps_view(b@),
            i <= n,
            i <= m,
            comps_order(x, y) == comps_order(x.skip(i as int), y.skip(i as int)),
        decreases n - i,
    {
        let c = component_order(&a[i], &b[i]);
        assert(x.skip(i as int)[0] == a@[i as int]@);
        assert(y.skip(i as int)[0] == b@[i as int]@);
        if c != 0 {
            return c;
        }
        assert(x.skip(i as int).drop_first() =~= x.skip(i + 1));
        assert(y.skip(i as int).drop_first() =~= y.skip(i + 1));
        i += 1;
    }
    if i == n {
        if i == m {
            0
        } else {
            -1
        }
    } else {
        1
    }
}

} // verus!
