//! The paginated-document crawler: the pagination matcher derived from the
//! first URL, the breadth-first scan of a page's element tree for the next
//! page's link, the crawl's accumulator, and the redirect follower.
use vstd::prelude::*;
use vstd::string::StringSliceAdditionalSpecFns;

use crate::bytestr::{bytes_eq, contains, contains_exec, occurs_at, occurs_at_exec, rfind_byte, to_vec};
use crate::error::ProxyError;
use vstd::utf8::encode_utf8;
use crate::urls::{join_url, joined_url, parse_url, parsed_url};

verus! {

pub const HREF: &'static str = "href";
pub const ANCHOR: &'static str = "a";
pub const HTTP_MARK: &'static str = "http";

/// Index of the last `b` in `s`, or -1.
pub open spec fn last_pos(s: Seq<u8>, b: u8) -> int
    decreases s.len(),
{
    if s.len() == 0 {
        -1
    } else if s.last() == b {
        s.len() - 1
    } else {
        last_pos(s.drop_last(), b)
    }
}

proof fn lemma_last_pos(s: Seq<u8>, b: u8, i: int)
    requires
        -1 <= i < s.len(),
        i >= 0 ==> s[i] == b,
        forall|k: int| i < k < s.len() ==> s[k] != b,
    ensures
        last_pos(s, b) == i,
    decreases s.len(),
{
    if s.len() > 0 && i < s.len() - 1 {
        lemma_last_pos(s.drop_last(), b, i);
    }
}

/// The last path segment's base name in `s`: the bytes between its last
/// `/` and its last `.`, when both exist in that order with something
/// between them.
pub open spec fn base_name(s: Seq<u8>) -> Option<Seq<u8>> {
    let first = last_pos(s, 47u8) + 1;
    let last = last_pos(s, 46u8);
    if last_pos(s, 47u8) >= 0 && last >= 0 && first < last {
        Some(s.subrange(first, last))
    } else {
        None
    }
}

/// An ASCII digit.
pub open spec fn is_digit(b: u8) -> bool {
    48 <= b && b <= 57
}

/// At index `i` of `seg` stands `base`, then `_` or `-`, then a digit.
pub open spec fn sibling_at(base: Seq<u8>, seg: Seq<u8>, i: int) -> bool {
    &&& occurs_at(seg, base, i)
    &&& i + base.len() + 1 < seg.len()
    &&& (seg[i + base.len()] == 95u8 || seg[i + base.len()] == 45u8)
    &&& is_digit(seg[i + base.len() + 1])
}

/// `seg` names a sibling page of `base`: it contains `base[_-]<digits>`.
pub open spec fn names_sibling(base: Seq<u8>, seg: Seq<u8>) -> bool {
    exists|i: int| sibling_at(base, seg, i)
}

/// The pagination matcher of a crawl: the base name of the first URL, or
/// nothing, in which case it matches no link.
pub struct PageMatcher {
    pub base: Option<Vec<u8>>,
}

impl PageMatcher {
    pub open spec fn view(&self) -> Option<Seq<u8>> {
        crate::codec::opt_view(self.base)
    }
}

/// A link that the matcher accepts as the next page.
pub open spec fn href_matches(m: Option<Seq<u8>>, href: Seq<u8>) -> bool {
    match m {
        None => false,
        Some(base) => href.len() >= 4 && match base_name(href) {
            Some(seg) => names_sibling(base, seg),
            None => false,
        },
    }
}

fn base_name_exec(s: &[u8]) -> (r: Option<Vec<u8>>)
    ensures
        crate::codec::opt_view(r) == base_name(s@),
{
    let slash = rfind_byte(s, 47);
    let dot = rfind_byte(s, 46);
    proof {
        match slash {
            Some(i) => lemma_last_pos(s@, 47u8, i as int),
            None => lemma_last_pos(s@, 47u8, -1),
        }
        match dot {
            Some(i) => lemma_last_pos(s@, 46u8, i as int),
            None => lemma_last_pos(s@, 46u8, -1),
        }
    }
    match (slash, dot) {
        (Some(a), Some(b)) => if a < b && a + 1 < b {
            Some(to_vec(&s[a + 1..b]))
        } else {
            None
        },
        _ => None,
    }
}

/// The matcher for a crawl that starts at `url`.
pub fn page_matcher(url: &str) -> (r: PageMatcher)
    ensures
        r.view() == base_name(url.spec_bytes()),
{
    PageMatcher { base: base_name_exec(url.as_bytes()) }
}

fn names_sibling_exec(base: &[u8], seg: &[u8]) -> (r: bool)
    ensures
        r == names_sibling(base@, seg@),
{
    let mut i: usize = 0;
    while i < seg.len()
        invariant
            i <= seg.len(),
            forall|k: int| 0 <= k < i ==> !sibling_at(base@, seg@, k),
        decreases seg.len() - i,
    {
        if occurs_at_exec(seg, base, i) && seg.len() - i - base.len() > 1 {
            let d = seg[i + base.len()];
            if (d == 95 || d == 45) && 48 <= seg[i + base.len() + 1] && seg[i + base.len() + 1] <= 57 {
                assert(sibling_at(base@, seg@, i as int));
                return true;
            }
        }
        i = i + 1;
    }
    assert forall|k: int| !sibling_at(base@, seg@, k) by {
        if k >= seg@.len() || k < 0 {
        }
    }
    false
}

/// Whether `href` is a link to the next page.
pub fn href_matches_exec(m: &PageMatcher, href: &[u8]) -> (r: bool)
    ensures
        r == href_matches(m.view(), href@),
{
    match &m.base {
        None => false,
        Some(base) => {
            if href.len() < 4 {
                return false;
            }
            match base_name_exec(href) {
                Some(seg) => names_sibling_exec(base.as_slice(), seg.as_slice()),
                None => false,
            }
        },
    }
}

/// A matcher made from a URL without a base name matches no link.
pub proof fn lemma_matcher_fail_closed(url: Seq<u8>, href: Seq<u8>)
    requires
        base_name(url) is None,
    ensures
        !href_matches(base_name(url), href),
{
}

/// An attribute of an element.
pub struct DomAttr {
    pub name: String,
    pub value: String,
}

/// A node of a parsed page: its element name (empty for other nodes), its
/// attributes and the indices of its children in document order.
pub struct DomNode {
    pub tag: String,
    pub attrs: Vec<DomAttr>,
    pub children: Vec<usize>,
}

/// A parsed page as an arena of nodes; node 0 is the document.
pub struct Dom {
    pub nodes: Vec<DomNode>,
}

/// The first `href` attribute among `attrs` that the matcher accepts.
pub open spec fn attr_hit(m: Option<Seq<u8>>, attrs: Seq<DomAttr>) -> Option<Seq<char>>
    decreases attrs.len(),
{
    if attrs.len() == 0 {
        None
    } else if encode_utf8(attrs[0].name@) == HREF.spec_bytes() && href_matches(
        m,
        encode_utf8(attrs[0].value@),
    ) {
        Some(attrs[0].value@)
    } else {
        attr_hit(m, attrs.drop_first())
    }
}

/// What node `c` offers as the next page's link: for an anchor, its first
/// accepted `href`.
pub open spec fn node_hit(nodes: Seq<DomNode>, m: Option<Seq<u8>>, c: int) -> Option<Seq<char>> {
    if 0 <= c < nodes.len() && encode_utf8(nodes[c].tag@) == ANCHOR.spec_bytes() {
        attr_hit(m, nodes[c].attrs@)
    } else {
        None
    }
}

/// The children in `cs` that index a node of an arena of `n` nodes.
pub open spec fn valid_kids(cs: Seq<usize>, n: nat) -> Seq<usize>
    decreases cs.len(),
{
    if cs.len() == 0 {
        Seq::empty()
    } else {
        valid_kids(cs.drop_last(), n) + if cs.last() < n {
            seq![cs.last()]
        } else {
            Seq::empty()
        }
    }
}

/// The next level of a breadth-first walk: the children of each node of
/// `level`, in order.
pub open spec fn level_kids(nodes: Seq<DomNode>, level: Seq<usize>) -> Seq<usize>
    decreases level.len(),
{
    if level.len() == 0 {
        Seq::empty()
    } else {
        level_kids(nodes, level.drop_last()) + if level.last() < nodes.len() {
            valid_kids(nodes[level.last() as int].children@, nodes.len())
        } else {
            Seq::empty()
        }
    }
}

/// The first node of `s` that offers a link.
pub open spec fn first_hit(nodes: Seq<DomNode>, m: Option<Seq<u8>>, s: Seq<usize>) -> Option<Seq<char>>
    decreases s.len(),
{
    if s.len() == 0 {
        None
    } else {
        match node_hit(nodes, m, s[0] as int) {
            Some(h) => Some(h),
            None => first_hit(nodes, m, s.drop_first()),
        }
    }
}

/// The breadth-first scan below `level`, for at most `fuel` levels.
pub open spec fn scan(nodes: Seq<DomNode>, m: Option<Seq<u8>>, level: Seq<usize>, fuel: nat) -> Option<Seq<char>>
    decreases fuel,
{
    if fuel == 0 {
        None
    } else {
        let kids = level_kids(nodes, level);
        match first_hit(nodes, m, kids) {
            Some(h) => Some(h),
            None => if kids.len() == 0 {
                None
            } else {
                scan(nodes, m, kids, (fuel - 1) as nat)
            },
        }
    }
}

/// The next page's link in a parsed page: the first accepted anchor in
/// breadth-first order below the document node (a tree of `n` nodes has
/// fewer than `n` levels), or empty.
pub open spec fn next_link(nodes: Seq<DomNode>, m: Option<Seq<u8>>) -> Seq<char> {
    if nodes.len() == 0 {
        Seq::empty()
    } else {
        match scan(nodes, m, seq![0usize], nodes.len()) {
            Some(h) => h,
            None => Seq::empty(),
        }
    }
}

proof fn lemma_first_hit_append(nodes: Seq<DomNode>, m: Option<Seq<u8>>, a: Seq<usize>, b: Seq<usize>)
    ensures
        first_hit(nodes, m, a + b) == match first_hit(nodes, m, a) {
            Some(h) => Some(h),
            None => first_hit(nodes, m, b),
        },
    decreases a.len(),
{
    if a.len() > 0 {
        assert((a + b).drop_first() =~= a.drop_first() + b);
        assert((a + b)[0] == a[0]);
        lemma_first_hit_append(nodes, m, a.drop_first(), b);
    } else {
        assert(a + b =~= b);
    }
}

proof fn lemma_valid_kids_append(a: Seq<usize>, b: Seq<usize>, n: nat)
    ensures
        valid_kids(a + b, n) == valid_kids(a, n) + valid_kids(b, n),
    decreases b.len(),
{
    if b.len() == 0 {
        assert(a + b =~= a);
        assert(valid_kids(a, n) + valid_kids(b, n) =~= valid_kids(a, n));
    } else {
        assert((a + b).drop_last() =~= a + b.drop_last());
        lemma_valid_kids_append(a, b.drop_last(), n);
    }
}

proof fn lemma_level_kids_append(nodes: Seq<DomNode>, a: Seq<usize>, b: Seq<usize>)
    ensures
        level_kids(nodes, a + b) == level_kids(nodes, a) + level_kids(nodes, b),
    decreases b.len(),
{
    if b.len() == 0 {
        assert(a + b =~= a);
        assert(level_kids(nodes, a) + level_kids(nodes, b) =~= level_kids(nodes, a));
    } else {
        assert((a + b).drop_last() =~= a + b.drop_last());
        lemma_level_kids_append(nodes, a, b.drop_last());
    }
}

fn attr_hit_exec(m: &PageMatcher, attrs: &Vec<DomAttr>) -> (r: Option<String>)
    ensures
        crate::urls::opt_str(r) == attr_hit(m.view(), attrs@),
{
    let mut i: usize = 0;
    assert(attrs@.subrange(0, attrs@.len() as int) =~= attrs@);
    while i < attrs.len()
        invariant
            i <= attrs.len(),
            attr_hit(m.view(), attrs@.subrange(i as int, attrs@.len() as int)) == attr_hit(
                m.view(),
                attrs@,
            ),
        decreases attrs.len() - i,
    {
        let ghost rest = attrs@.subrange(i as int, attrs@.len() as int);
        assert(rest[0] == attrs@[i as int]);
        assert(rest.drop_first() =~= attrs@.subrange(i + 1, attrs@.len() as int));
        let a = &attrs[i];
        if bytes_eq(a.name.as_str().as_bytes(), HREF.as_bytes()) && href_matches_exec(
            m,
            a.value.as_str().as_bytes(),
        ) {
            return Some(a.value.clone());
        }
        i = i + 1;
    }
    assert(attrs@.subrange(0, attrs@.len() as int) =~= attrs@);
    None
}

fn node_hit_exec(dom: &Dom, m: &PageMatcher, c: usize) -> (r: Option<String>)
    ensures
        crate::urls::opt_str(r) == node_hit(dom.nodes@, m.view(), c as int),
{
    if c < dom.nodes.len() && bytes_eq(dom.nodes[c].tag.as_str().as_bytes(), ANCHOR.as_bytes()) {
        attr_hit_exec(m, &dom.nodes[c].attrs)
    } else {
        None
    }
}

/// Finds the next page's link in a parsed page (see `next_link`).
pub fn get_next_link(dom: &Dom, m: &PageMatcher) -> (r: String)
    ensures
        r@ == next_link(dom.nodes@, m.view()),
{
    let ghost nodes = dom.nodes@;
    let n = dom.nodes.len();
    if n == 0 {
        return String::new();
    }
    let mut level: Vec<usize> = vec![0usize];
    let mut fuel: usize = n;
    assert(level@ =~= seq![0usize]);
    while fuel > 0
        invariant
            nodes == dom.nodes@,
            n == nodes.len(),
            scan(nodes, m.view(), level@, fuel as nat) == scan(nodes, m.view(), seq![0usize], n as nat),
        decreases fuel,
    {
        let ghost full = level_kids(nodes, level@);
        let mut kids: Vec<usize> = Vec::new();
        let mut i: usize = 0;
        while i < level.len()
            invariant
                nodes == dom.nodes@,
                n == nodes.len(),
                full == level_kids(nodes, level@),
                i <= level.len(),
                kids@ == level_kids(nodes, level@.subrange(0, i as int)),
                first_hit(nodes, m.view(), kids@) is None,
                scan(nodes, m.view(), level@, fuel as nat) == scan(nodes, m.view(), seq![0usize], n as nat),
                fuel > 0,
            decreases level.len() - i,
        {
            let node = level[i];
            assert(level@.subrange(0, i + 1).drop_last() =~= level@.subrange(0, i as int));
            if node < n {
                let cs = &dom.nodes[node].children;
                let mut j: usize = 0;
                let ghost kids0 = kids@;
                while j < cs.len()
                    invariant
                        nodes == dom.nodes@,
                        n == nodes.len(),
                        full == level_kids(nodes, level@),
                        i < level.len(),
                        node == level@[i as int],
                        node < n,
                        cs@ == nodes[node as int].children@,
                        j <= cs.len(),
                        kids0 == level_kids(nodes, level@.subrange(0, i as int)),
                        kids@ == kids0 + valid_kids(cs@.subrange(0, j as int), n as nat),
                        first_hit(nodes, m.view(), kids@) is None,
                        scan(nodes, m.view(), level@, fuel as nat) == scan(
                            nodes,
                            m.view(),
                            seq![0usize],
                            n as nat,
                        ),
                        fuel > 0,
                    decreases cs.len() - j,
                {
                    let c = cs[j];
                    assert(cs@.subrange(0, j + 1).drop_last() =~= cs@.subrange(0, j as int));
                    if c < n {
                        match node_hit_exec(dom, m, c) {
                            Some(h) => {
                                proof {
                                    let pre = kids@;
                                    let rest_cs = valid_kids(cs@.subrange(j + 1, cs@.len() as int), n as nat);
                                    let rest_level = level_kids(nodes, level@.subrange(i + 1, level@.len() as int));
                                    lemma_valid_kids_append(cs@.subrange(0, j + 1), cs@.subrange(j + 1, cs@.len() as int), n as nat);
                                    assert(cs@.subrange(0, j + 1) + cs@.subrange(j + 1, cs@.len() as int) =~= cs@);
                                    assert(valid_kids(cs@.subrange(0, j + 1), n as nat) == valid_kids(cs@.subrange(0, j as int), n as nat) + seq![c]);
                                    lemma_level_kids_append(nodes, level@.subrange(0, i + 1), level@.subrange(i + 1, level@.len() as int));
                                    assert(level@.subrange(0, i + 1) + level@.subrange(i + 1, level@.len() as int) =~= level@);
                                    assert(level@.subrange(0, i + 1).drop_last() =~= level@.subrange(0, i as int));
                                    assert(level@.subrange(0, i + 1).last() == node);
                                    assert(level_kids(nodes, level@.subrange(0, i + 1)) == kids0 + valid_kids(cs@, n as nat));
                                    assert(full =~= pre + (seq![c] + (rest_cs + rest_level)));
                                    lemma_first_hit_append(nodes, m.view(), pre, seq![c] + (rest_cs + rest_level));
                                    assert((seq![c] + (rest_cs + rest_level))[0] == c);
                                }
                                return h;
                            },
                            None => {},
                        }
                        let ghost pre = kids@;
                        kids.push(c);
                        proof {
                            lemma_first_hit_append(nodes, m.view(), pre, seq![c]);
                            assert(kids@ =~= pre + seq![c]);
                            assert(seq![c].drop_first() =~= Seq::<usize>::empty());
                            assert(seq![c][0] == c);
                            assert(first_hit(nodes, m.view(), Seq::<usize>::empty()) is None);
                            assert(first_hit(nodes, m.view(), seq![c]) is None);
                        }
                    }
                    j = j + 1;
                    assert(kids@ =~= kids0 + valid_kids(cs@.subrange(0, j as int), n as nat));
                }
                assert(cs@.subrange(0, cs@.len() as int) =~= cs@);
            }
            i = i + 1;
        }
        assert(level@.subrange(0, level@.len() as int) =~= level@);
        if kids.len() == 0 {
            return String::new();
        }
        level = kids;
        fuel = fuel - 1;
    }
    String::new()
}

proof fn lemma_no_hits(nodes: Seq<DomNode>, s: Seq<usize>)
    ensures
        first_hit(nodes, None, s) is None,
    decreases s.len(),
{
    if s.len() > 0 {
        lemma_no_attr_hits(nodes, s[0] as int);
        lemma_no_hits(nodes, s.drop_first());
    }
}

proof fn lemma_no_attr_hits(nodes: Seq<DomNode>, c: int)
    ensures
        node_hit(nodes, None, c) is None,
{
    if 0 <= c < nodes.len() {
        lemma_attr_none(nodes[c].attrs@);
    }
}

proof fn lemma_attr_none(attrs: Seq<DomAttr>)
    ensures
        attr_hit(None, attrs) is None,
    decreases attrs.len(),
{
    if attrs.len() > 0 {
        lemma_attr_none(attrs.drop_first());
    }
}

proof fn lemma_scan_none(nodes: Seq<DomNode>, level: Seq<usize>, fuel: nat)
    ensures
        scan(nodes, None, level, fuel) is None,
    decreases fuel,
{
    if fuel > 0 {
        lemma_no_hits(nodes, level_kids(nodes, level));
        lemma_scan_none(nodes, level_kids(nodes, level), (fuel - 1) as nat);
    }
}

/// A crawl that starts at a URL without a base name never finds a next
/// page: whatever page it reads, the next link is empty, so the crawl ends
/// after its first page.
pub proof fn lemma_crawl_fail_closed(url: Seq<u8>, nodes: Seq<DomNode>)
    requires
        base_name(url) is None,
    ensures
        next_link(nodes, base_name(url)) == Seq::<char>::empty(),
{
    lemma_scan_none(nodes, seq![0usize], nodes.len());
}

/// Every child index is greater than its parent's, as a pre-order
/// numbering of a tree gives.
pub open spec fn children_after_parents(nodes: Seq<DomNode>) -> bool {
    forall|i: int, j: int|
        0 <= i < nodes.len() && 0 <= j < nodes[i].children@.len() ==> #[trigger] nodes[i].children@[j]
            > i
}

/// Every entry of `s` is at least `d`.
pub open spec fn all_at_least(s: Seq<usize>, d: int) -> bool {
    forall|k: int| 0 <= k < s.len() ==> #[trigger] s[k] >= d
}

proof fn lemma_valid_kids_bounds(cs: Seq<usize>, n: nat, d: int)
    requires
        all_at_least(cs, d),
    ensures
        all_at_least(valid_kids(cs, n), d),
        forall|k: int| 0 <= k < valid_kids(cs, n).len() ==> #[trigger] valid_kids(cs, n)[k] < n,
    decreases cs.len(),
{
    if cs.len() > 0 {
        let front = cs.drop_last();
        assert forall|k: int| 0 <= k < front.len() implies #[trigger] front[k] >= d by {
            assert(front[k] == cs[k]);
        }
        lemma_valid_kids_bounds(front, n, d);
    }
}

proof fn lemma_level_kids_deeper(nodes: Seq<DomNode>, level: Seq<usize>, d: int)
    requires
        children_after_parents(nodes),
        all_at_least(level, d),
    ensures
        all_at_least(level_kids(nodes, level), d + 1),
        forall|k: int|
            0 <= k < level_kids(nodes, level).len() ==> #[trigger] level_kids(nodes, level)[k] < nodes.len(),
    decreases level.len(),
{
    if level.len() > 0 {
        let front = level.drop_last();
        assert forall|k: int| 0 <= k < front.len() implies #[trigger] front[k] >= d by {
            assert(front[k] == level[k]);
        }
        lemma_level_kids_deeper(nodes, front, d);
        let p = level.last();
        if p < nodes.len() {
            let cs = nodes[p as int].children@;
            assert forall|k: int| 0 <= k < cs.len() implies #[trigger] cs[k] >= d + 1 by {
                assert(nodes[p as int].children@[k] > p);
            }
            lemma_valid_kids_bounds(cs, nodes.len(), d + 1);
        }
        let a = level_kids(nodes, front);
        let b = if p < nodes.len() {
            valid_kids(nodes[p as int].children@, nodes.len())
        } else {
            Seq::empty()
        };
        assert(level_kids(nodes, level) == a + b);
        assert forall|k: int| 0 <= k < (a + b).len() implies #[trigger] (a + b)[k] >= d + 1 && (a
            + b)[k] < nodes.len() by {
            if k < a.len() {
                assert((a + b)[k] == a[k]);
            } else {
                assert((a + b)[k] == b[k - a.len()]);
            }
        }
    }
}

proof fn lemma_scan_settles(nodes: Seq<DomNode>, m: Option<Seq<u8>>, level: Seq<usize>, d: int, f: nat, g: nat)
    requires
        children_after_parents(nodes),
        0 <= d <= nodes.len(),
        all_at_least(level, d),
        f >= nodes.len() - d,
        g >= nodes.len() - d,
    ensures
        scan(nodes, m, level, f) == scan(nodes, m, level, g),
    decreases nodes.len() - d,
{
    let kids = level_kids(nodes, level);
    lemma_level_kids_deeper(nodes, level, d);
    if d == nodes.len() {
        if kids.len() > 0 {
            assert(kids[0] >= d + 1);
            assert(kids[0] < nodes.len());
        }
        assert(kids.len() == 0);
        if f > 0 {
            assert(first_hit(nodes, m, kids) is None);
        }
        if g > 0 {
            assert(first_hit(nodes, m, kids) is None);
        }
    } else {
        lemma_scan_settles(nodes, m, kids, d + 1, (f - 1) as nat, (g - 1) as nat);
    }
}

/// In an arena whose children come after their parents, the scan never
/// needs more levels than there are nodes: allowing more finds nothing
/// more, so `next_link` is the first accepted anchor of the whole tree in
/// breadth-first order.
pub proof fn lemma_scan_covers_tree(nodes: Seq<DomNode>, m: Option<Seq<u8>>, extra: nat)
    requires
        children_after_parents(nodes),
    ensures
        scan(nodes, m, seq![0usize], nodes.len()) == scan(nodes, m, seq![0usize], nodes.len() + extra),
{
    lemma_scan_settles(nodes, m, seq![0usize], 0, nodes.len(), nodes.len() + extra);
}

/// Where a next-page link leads: an absolute link (one that mentions
/// `http`) is parsed as it stands, any other is resolved against the
/// crawl's first URL; `None` when that fails.
pub open spec fn resolve_next(base: Seq<char>, link: Seq<char>) -> Option<Seq<char>> {
    if contains(encode_utf8(link), HTTP_MARK.spec_bytes()) {
        parsed_url(link)
    } else {
        joined_url(base, link)
    }
}

/// The state of a crawl over the pages of one document.
pub struct Crawl {
    /// The first URL, against which relative links are resolved.
    pub base: String,
    pub matcher: PageMatcher,
    /// The first page's title.
    pub title: String,
    /// The text of the pages read so far, in order.
    pub text: String,
    /// Pages read so far.
    pub pages: usize,
}

impl Crawl {
    /// Starts a crawl at `dest`, which must parse as a URL.
    pub fn start(dest: &str) -> (r: Result<Crawl, ProxyError>)
        ensures
            match parsed_url(dest@) {
                Some(_) => r matches Ok(c) && c.base@ == dest@ && c.matcher.view() == base_name(
                    dest.spec_bytes(),
                ) && c.text@ == Seq::<char>::empty() && c.pages == 0,
                None => r matches Err(e) && e == ProxyError::InvalidUrl,
            },
    {
        if parse_url(dest).is_none() {
            return Err(ProxyError::InvalidUrl);
        }
        Ok(Crawl {
            base: dest.to_owned(),
            matcher: page_matcher(dest),
            title: String::new(),
            text: String::new(),
            pages: 0,
        })
    }

    /// Takes in one extracted page: its title (kept from the first page),
    /// its text (appended) and the link that `get_next_link` found on it.
    /// Returns the next URL to fetch, or `None` when the document is done.
    pub fn on_page(&mut self, title: String, text: &str, link: &str) -> (r: Result<Option<String>, ProxyError>)
        requires
            old(self).pages < usize::MAX,
        ensures
            final(self).text@ == old(self).text@ + text@,
            final(self).pages == old(self).pages + 1,
            final(self).base == old(self).base,
            final(self).matcher.view() == old(self).matcher.view(),
            final(self).title@ == if old(self).pages == 0 {
                title@
            } else {
                old(self).title@
            },
            link@.len() == 0 ==> (r matches Ok(n) && n is None),
            link@.len() > 0 ==> match resolve_next(old(self).base@, link@) {
                Some(u) => r matches Ok(n) && n matches Some(v) && v@ == u,
                None => r matches Err(e) && e == ProxyError::InvalidUrl,
            },
    {
        if self.pages == 0 {
            self.title = title;
        }
        self.text.append(text);
        self.pages = self.pages + 1;
        if link.is_empty() {
            return Ok(None);
        }
        let next = if contains_exec(link.as_bytes(), HTTP_MARK.as_bytes()) {
            parse_url(link)
        } else {
            join_url(self.base.as_str(), link)
        };
        match next {
            Some(u) => Ok(Some(u)),
            None => Err(ProxyError::InvalidUrl),
        }
    }
}

/// Most requests that one fetch makes, redirects included.
pub const MAX_REDIRECTS: usize = 10;

/// What a fetch does after a response.
pub enum FetchStep {
    /// Request this URL next.
    Follow(String),
    /// This response's body is the page.
    Body,
}

/// The text of a header value that reads as text: each byte is its char.
pub open spec fn ascii_chars(b: Seq<u8>) -> Seq<char> {
    b.map_values(|x: u8| x as char)
}

/// Relies on `String::from_utf8_lossy`, which copies valid UTF-8, and so
/// ASCII, unchanged.
#[verifier::external_body]
fn ascii_string(b: &[u8]) -> (r: String)
    requires
        crate::headers::is_text_value(b@),
    ensures
        r@ == ascii_chars(b@),
        encode_utf8(r@) == b@,
{
    String::from_utf8_lossy(b).into_owned()
}

/// Where a redirect leads: an absolute `Location` (one that starts with
/// `http`) as it stands, any other resolved against the current URL.
pub open spec fn redirect_location(current: Seq<char>, loc: Seq<u8>) -> Option<Seq<char>> {
    if crate::bytestr::starts_with(loc, HTTP_MARK.spec_bytes()) {
        Some(ascii_chars(loc))
    } else {
        joined_url(current, ascii_chars(loc))
    }
}

/// The state of one fetch that follows redirects.
pub struct RedirectFollower {
    /// The URL to request.
    pub current: String,
    /// Requests made so far.
    pub requests: usize,
}

impl RedirectFollower {
    /// A fetch of `url`.
    pub fn new(url: &str) -> (r: RedirectFollower)
        ensures
            r.current@ == url@,
            r.requests == 0,
    {
        RedirectFollower { current: url.to_owned(), requests: 0 }
    }

    /// Takes in the response to a request for `current`: whether its
    /// status is a redirection and its first `Location` value. A
    /// redirection with a location is followed, up to `MAX_REDIRECTS`
    /// requests in all; any other response is the page.
    pub fn on_response(&mut self, redirection: bool, location: Option<&[u8]>) -> (r: Result<FetchStep, ProxyError>)
        requires
            old(self).requests < MAX_REDIRECTS,
        ensures
            final(self).requests == old(self).requests + 1,
            !redirection || location is None ==> (r matches Ok(s) && s is Body),
            redirection && location is Some ==> ({
                let loc = location->Some_0@;
                if !crate::headers::is_text_value(loc) {
                    r matches Err(e) && e == ProxyError::InvalidHeader
                } else {
                    match redirect_location(old(self).current@, loc) {
                        None => r matches Err(e) && e == ProxyError::InvalidUrl,
                        Some(u) => if old(self).requests + 1 == MAX_REDIRECTS {
                            r matches Err(e) && e == ProxyError::TooManyRedirects
                        } else {
                            r matches Ok(s) && s matches FetchStep::Follow(v) && v@ == u
                                && final(self).current@ == u
                        },
                    }
                }
            }),
    {
        self.requests = self.requests + 1;
        let loc = match location {
            Some(l) => l,
            None => {
                return Ok(FetchStep::Body);
            },
        };
        if !redirection {
            return Ok(FetchStep::Body);
        }
        if !crate::headers::is_text_value_exec(loc) {
            return Err(ProxyError::InvalidHeader);
        }
        let text = ascii_string(loc);
        let next = if occurs_at_exec(loc, HTTP_MARK.as_bytes(), 0) {
            text
        } else {
            match join_url(self.current.as_str(), text.as_str()) {
                Some(u) => u,
                None => {
                    return Err(ProxyError::InvalidUrl);
                },
            }
        };
        if self.requests == MAX_REDIRECTS {
            return Err(ProxyError::TooManyRedirects);
        }
        self.current = next.clone();
        Ok(FetchStep::Follow(next))
    }
}

/// The title and text that readability extracts from the HTML `html`
/// read at the URL `url`, or `None` when it fails.
pub uninterp spec fn readable(html: Seq<u8>, url: Seq<char>) -> Option<(Seq<char>, Seq<char>)>;

/// Relies on `readability::extractor::extract`, given `url` parsed by
/// `url::Url::parse`: its scoring is deterministic (ordered maps), so the
/// result depends on the bytes and the URL alone.
#[verifier::external_body]
fn extract_article(html: &[u8], url: &str) -> (r: Option<(String, String)>)
    ensures
        match r {
            Some((t, x)) => readable(html@, url@) == Some((t@, x@)),
            None => readable(html@, url@) is None,
        },
{
    let base = url::Url::parse(url).ok()?;
    readability::extractor::extract(&mut &html[..], &base).ok().map(|p| (p.title, p.text))
}

/// One page of a document, read.
pub struct PageRead {
    pub title: String,
    pub text: String,
    /// The next page's link, or empty.
    pub link: String,
}

/// Reads one fetched page: the next page's link found in its element tree
/// `dom`, and the title and text that readability extracts.
pub fn read_page(html: &[u8], url: &str, dom: &Dom, m: &PageMatcher) -> (r: Result<PageRead, ProxyError>)
    ensures
        match readable(html@, url@) {
            Some((t, x)) => r matches Ok(p) && p.title@ == t && p.text@ == x && p.link@ == next_link(
                dom.nodes@,
                m.view(),
            ),
            None => r matches Err(e) && e == ProxyError::Extraction,
        },
{
    let link = get_next_link(dom, m);
    match extract_article(html, url) {
        Some((title, text)) => Ok(PageRead { title, text, link }),
        None => Err(ProxyError::Extraction),
    }
}

} // verus!
