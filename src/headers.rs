//! HTTP header lists: a header set is a sequence of (name, value) byte
//! pairs in wire order. Names compare without regard to ASCII case.
use vstd::prelude::*;

use crate::bytestr::{eq_ignore_ascii_case, lower_all};

verus! {

/// One header line.
pub struct Header {
    pub name: Vec<u8>,
    pub value: Vec<u8>,
}

impl View for Header {
    type V = (Seq<u8>, Seq<u8>);

    open spec fn view(&self) -> (Seq<u8>, Seq<u8>) {
        (self.name@, self.value@)
    }
}

/// The views of a list of headers.
pub open spec fn hviews(hs: Seq<Header>) -> Seq<(Seq<u8>, Seq<u8>)> {
    hs.map_values(|h: Header| h@)
}

/// Two header names are the same name.
pub open spec fn same_name(a: Seq<u8>, b: Seq<u8>) -> bool {
    lower_all(a) == lower_all(b)
}

/// `content-encoding`
pub open spec fn content_encoding() -> Seq<u8> {
    seq![99u8, 111u8, 110u8, 116u8, 101u8, 110u8, 116u8, 45u8, 101u8, 110u8, 99u8, 111u8, 100u8, 105u8, 110u8, 103u8]
}

/// `content-type`
pub open spec fn content_type() -> Seq<u8> {
    seq![99u8, 111u8, 110u8, 116u8, 101u8, 110u8, 116u8, 45u8, 116u8, 121u8, 112u8, 101u8]
}

/// `content-length`
pub open spec fn content_length() -> Seq<u8> {
    seq![99u8, 111u8, 110u8, 116u8, 101u8, 110u8, 116u8, 45u8, 108u8, 101u8, 110u8, 103u8, 116u8, 104u8]
}

/// `location`
pub open spec fn location() -> Seq<u8> {
    seq![108u8, 111u8, 99u8, 97u8, 116u8, 105u8, 111u8, 110u8]
}

/// `set-cookie`
pub open spec fn set_cookie() -> Seq<u8> {
    seq![115u8, 101u8, 116u8, 45u8, 99u8, 111u8, 111u8, 107u8, 105u8, 101u8]
}

/// `host`
pub open spec fn host() -> Seq<u8> {
    seq![104u8, 111u8, 115u8, 116u8]
}

/// `user-agent`
pub open spec fn user_agent() -> Seq<u8> {
    seq![117u8, 115u8, 101u8, 114u8, 45u8, 97u8, 103u8, 101u8, 110u8, 116u8]
}

/// `accept-encoding`
pub open spec fn accept_encoding() -> Seq<u8> {
    seq![97u8, 99u8, 99u8, 101u8, 112u8, 116u8, 45u8, 101u8, 110u8, 99u8, 111u8, 100u8, 105u8, 110u8, 103u8]
}

/// The hop-by-hop header names, which hold for one connection only.
pub open spec fn hop_names() -> Seq<Seq<u8>> {
    seq![
        /* connection */ seq![99u8, 111u8, 110u8, 110u8, 101u8, 99u8, 116u8, 105u8, 111u8, 110u8],
        /* keep-alive */ seq![107u8, 101u8, 101u8, 112u8, 45u8, 97u8, 108u8, 105u8, 118u8, 101u8],
        /* proxy-authenticate */ seq![112u8, 114u8, 111u8, 120u8, 121u8, 45u8, 97u8, 117u8, 116u8, 104u8, 101u8, 110u8, 116u8, 105u8, 99u8, 97u8, 116u8, 101u8],
        /* proxy-authorization */ seq![112u8, 114u8, 111u8, 120u8, 121u8, 45u8, 97u8, 117u8, 116u8, 104u8, 111u8, 114u8, 105u8, 122u8, 97u8, 116u8, 105u8, 111u8, 110u8],
        /* te */ seq![116u8, 101u8],
        /* trailers */ seq![116u8, 114u8, 97u8, 105u8, 108u8, 101u8, 114u8, 115u8],
        /* transfer-encoding */ seq![116u8, 114u8, 97u8, 110u8, 115u8, 102u8, 101u8, 114u8, 45u8, 101u8, 110u8, 99u8, 111u8, 100u8, 105u8, 110u8, 103u8],
        /* upgrade */ seq![117u8, 112u8, 103u8, 114u8, 97u8, 100u8, 101u8],
    ]
}

/// `name` is a hop-by-hop header, in any letter case.
pub open spec fn is_hop(name: Seq<u8>) -> bool {
    hop_names().contains(lower_all(name))
}

/// The headers of `hs` that are not hop-by-hop, in their order.
pub open spec fn end_to_end(hs: Seq<(Seq<u8>, Seq<u8>)>) -> Seq<(Seq<u8>, Seq<u8>)>
    decreases hs.len(),
{
    if hs.len() == 0 {
        hs
    } else {
        let p = end_to_end(hs.drop_last());
        if is_hop(hs.last().0) {
            p
        } else {
            p.push(hs.last())
        }
    }
}

/// The headers of `hs` whose name is not `name`, in their order.
pub open spec fn without(hs: Seq<(Seq<u8>, Seq<u8>)>, name: Seq<u8>) -> Seq<(Seq<u8>, Seq<u8>)>
    decreases hs.len(),
{
    if hs.len() == 0 {
        hs
    } else {
        let p = without(hs.drop_last(), name);
        if same_name(hs.last().0, name) {
            p
        } else {
            p.push(hs.last())
        }
    }
}

/// `hs` with every `name` header replaced by one `name: value` at the end.
pub open spec fn with_header(hs: Seq<(Seq<u8>, Seq<u8>)>, name: Seq<u8>, value: Seq<u8>) -> Seq<
    (Seq<u8>, Seq<u8>),
> {
    without(hs, name).push((name, value))
}

/// The value of the first `name` header in `hs`.
pub open spec fn first_value(hs: Seq<(Seq<u8>, Seq<u8>)>, name: Seq<u8>) -> Option<Seq<u8>>
    decreases hs.len(),
{
    if hs.len() == 0 {
        None
    } else if same_name(hs[0].0, name) {
        Some(hs[0].1)
    } else {
        first_value(hs.subrange(1, hs.len() as int), name)
    }
}

/// A header value that reads as text: visible ASCII and tabs.
pub open spec fn is_text_value(v: Seq<u8>) -> bool {
    forall|i: int| 0 <= i < v.len() ==> (32 <= #[trigger] v[i] && v[i] < 127) || v[i] == 9
}

/// A value that a header may carry: no control bytes but tab.
pub open spec fn is_valid_value(v: Seq<u8>) -> bool {
    forall|i: int| 0 <= i < v.len() ==> (32 <= #[trigger] v[i] && v[i] != 127) || v[i] == 9
}

/// `content-encoding`
pub fn content_encoding_name() -> (r: Vec<u8>)
    ensures
        r@ == content_encoding(),
{
    vec![99u8, 111u8, 110u8, 116u8, 101u8, 110u8, 116u8, 45u8, 101u8, 110u8, 99u8, 111u8, 100u8, 105u8, 110u8, 103u8]
}

/// `content-type`
pub fn content_type_name() -> (r: Vec<u8>)
    ensures
        r@ == content_type(),
{
    vec![99u8, 111u8, 110u8, 116u8, 101u8, 110u8, 116u8, 45u8, 116u8, 121u8, 112u8, 101u8]
}

/// `content-length`
pub fn content_length_name() -> (r: Vec<u8>)
    ensures
        r@ == content_length(),
{
    vec![99u8, 111u8, 110u8, 116u8, 101u8, 110u8, 116u8, 45u8, 108u8, 101u8, 110u8, 103u8, 116u8, 104u8]
}

/// `location`
pub fn location_name() -> (r: Vec<u8>)
    ensures
        r@ == location(),
{
    vec![108u8, 111u8, 99u8, 97u8, 116u8, 105u8, 111u8, 110u8]
}

/// `set-cookie`
pub fn set_cookie_name() -> (r: Vec<u8>)
    ensures
        r@ == set_cookie(),
{
    vec![115u8, 101u8, 116u8, 45u8, 99u8, 111u8, 111u8, 107u8, 105u8, 101u8]
}

/// `host`
pub fn host_name() -> (r: Vec<u8>)
    ensures
        r@ == host(),
{
    vec![104u8, 111u8, 115u8, 116u8]
}

/// `user-agent`
pub fn user_agent_name() -> (r: Vec<u8>)
    ensures
        r@ == user_agent(),
{
    vec![117u8, 115u8, 101u8, 114u8, 45u8, 97u8, 103u8, 101u8, 110u8, 116u8]
}

/// `accept-encoding`
pub fn accept_encoding_name() -> (r: Vec<u8>)
    ensures
        r@ == accept_encoding(),
{
    vec![97u8, 99u8, 99u8, 101u8, 112u8, 116u8, 45u8, 101u8, 110u8, 99u8, 111u8, 100u8, 105u8, 110u8, 103u8]
}

/// The hop-by-hop header names.
pub fn hop_names_exec() -> (r: Vec<Vec<u8>>)
    ensures
        crate::bytestr::views(r@) == hop_names(),
{
    let r = vec![
        vec![99u8, 111u8, 110u8, 110u8, 101u8, 99u8, 116u8, 105u8, 111u8, 110u8],
        vec![107u8, 101u8, 101u8, 112u8, 45u8, 97u8, 108u8, 105u8, 118u8, 101u8],
        vec![112u8, 114u8, 111u8, 120u8, 121u8, 45u8, 97u8, 117u8, 116u8, 104u8, 101u8, 110u8, 116u8, 105u8, 99u8, 97u8, 116u8, 101u8],
        vec![112u8, 114u8, 111u8, 120u8, 121u8, 45u8, 97u8, 117u8, 116u8, 104u8, 111u8, 114u8, 105u8, 122u8, 97u8, 116u8, 105u8, 111u8, 110u8],
        vec![116u8, 101u8],
        vec![116u8, 114u8, 97u8, 105u8, 108u8, 101u8, 114u8, 115u8],
        vec![116u8, 114u8, 97u8, 110u8, 115u8, 102u8, 101u8, 114u8, 45u8, 101u8, 110u8, 99u8, 111u8, 100u8, 105u8, 110u8, 103u8],
        vec![117u8, 112u8, 103u8, 114u8, 97u8, 100u8, 101u8],
    ];
    assert(crate::bytestr::views(r@) =~= hop_names());
    r
}

/// Whether `name` is a hop-by-hop header, in any letter case.
pub fn is_hop_header(name: &[u8]) -> (r: bool)
    ensures
        r == is_hop(name@),
{
    let hops = hop_names_exec();
    let lname = crate::bytestr::lower_exec(name);
    let mut i: usize = 0;
    while i < hops.len()
        invariant
            i <= hops.len(),
            crate::bytestr::views(hops@) == hop_names(),
            lname@ == lower_all(name@),
            forall|k: int| 0 <= k < i ==> hop_names()[k] != lower_all(name@),
        decreases hops.len() - i,
    {
        assert(crate::bytestr::views(hops@)[i as int] == hops@[i as int]@);
        if crate::bytestr::bytes_eq(lname.as_slice(), hops[i].as_slice()) {
            return true;
        }
        i = i + 1;
    }
    false
}

/// Removes the hop-by-hop headers; the others keep their values and order.
pub fn remove_hop_headers(headers: &mut Vec<Header>)
    ensures
        hviews(final(headers)@) == end_to_end(hviews(old(headers)@)),
{
    let ghost orig = hviews(headers@);
    let mut rest: Vec<Header> = Vec::new();
    std::mem::swap(headers, &mut rest);
    let n = rest.len();
    while rest.len() > 0
        invariant
            rest@.len() <= n,
            n == orig.len(),
            hviews(rest@) == orig.subrange(n - rest@.len(), n as int),
            hviews(headers@) == end_to_end(orig.subrange(0, n - rest@.len())),
        decreases rest.len(),
    {
        let ghost c = n - rest@.len();
        let ghost before_rest = rest@;
        let ghost before_kept = hviews(headers@);
        let h = rest.remove(0);
        proof {
            assert(hviews(before_rest)[0] == orig.subrange(c, n as int)[0]);
            assert(h@ == orig[c]);
            assert(rest@ =~= before_rest.subrange(1, before_rest.len() as int));
            assert forall|k: int| 0 <= k < rest@.len() implies hviews(rest@)[k] == orig.subrange(
                c + 1,
                n as int,
            )[k] by {
                assert(hviews(before_rest)[k + 1] == orig.subrange(c, n as int)[k + 1]);
            }
            assert(hviews(rest@) =~= orig.subrange(c + 1, n as int));
            assert(orig.subrange(0, c + 1).drop_last() =~= orig.subrange(0, c));
        }
        if !is_hop_header(h.name.as_slice()) {
            headers.push(h);
            assert(hviews(headers@) =~= before_kept.push(orig[c]));
        }
    }
    assert(orig.subrange(0, n as int) =~= orig);
}

/// Removes every header named `name`; the others keep their order.
pub fn remove_named(headers: &mut Vec<Header>, name: &[u8])
    ensures
        hviews(final(headers)@) == without(hviews(old(headers)@), name@),
{
    let ghost orig = hviews(headers@);
    let mut rest: Vec<Header> = Vec::new();
    std::mem::swap(headers, &mut rest);
    let n = rest.len();
    while rest.len() > 0
        invariant
            rest@.len() <= n,
            n == orig.len(),
            hviews(rest@) == orig.subrange(n - rest@.len(), n as int),
            hviews(headers@) == without(orig.subrange(0, n - rest@.len()), name@),
        decreases rest.len(),
    {
        let ghost c = n - rest@.len();
        let ghost before_rest = rest@;
        let ghost before_kept = hviews(headers@);
        let h = rest.remove(0);
        proof {
            assert(hviews(before_rest)[0] == orig.subrange(c, n as int)[0]);
            assert(h@ == orig[c]);
            assert(rest@ =~= before_rest.subrange(1, before_rest.len() as int));
            assert forall|k: int| 0 <= k < rest@.len() implies hviews(rest@)[k] == orig.subrange(
                c + 1,
                n as int,
            )[k] by {
                assert(hviews(before_rest)[k + 1] == orig.subrange(c, n as int)[k + 1]);
            }
            assert(hviews(rest@) =~= orig.subrange(c + 1, n as int));
            assert(orig.subrange(0, c + 1).drop_last() =~= orig.subrange(0, c));
        }
        if !eq_ignore_ascii_case(h.name.as_slice(), name) {
            headers.push(h);
            assert(hviews(headers@) =~= before_kept.push(orig[c]));
        }
    }
    assert(orig.subrange(0, n as int) =~= orig);
}

/// Replaces every `name` header by one `name: value` at the end.
pub fn set_header(headers: &mut Vec<Header>, name: Vec<u8>, value: Vec<u8>)
    ensures
        hviews(final(headers)@) == with_header(hviews(old(headers)@), name@, value@),
{
    remove_named(headers, name.as_slice());
    let ghost before = hviews(headers@);
    headers.push(Header { name, value });
    assert(hviews(headers@) =~= before.push((name@, value@)));
}

/// A copy of the value of the first `name` header.
pub fn get_first(headers: &Vec<Header>, name: &[u8]) -> (r: Option<Vec<u8>>)
    ensures
        crate::codec::opt_view(r) == first_value(hviews(headers@), name@),
{
    let ghost hs = hviews(headers@);
    let mut i: usize = 0;
    assert(hs.subrange(0, hs.len() as int) =~= hs);
    while i < headers.len()
        invariant
            i <= headers.len(),
            hs == hviews(headers@),
            first_value(hs.subrange(i as int, hs.len() as int), name@) == first_value(hs, name@),
        decreases headers.len() - i,
    {
        let ghost sub = hs.subrange(i as int, hs.len() as int);
        assert(sub[0] == headers@[i as int]@);
        if eq_ignore_ascii_case(headers[i].name.as_slice(), name) {
            return Some(crate::bytestr::to_vec(headers[i].value.as_slice()));
        }
        assert(sub.subrange(1, sub.len() as int) =~= hs.subrange(i + 1, hs.len() as int));
        i = i + 1;
    }
    None
}

/// Whether a header value reads as text (visible ASCII and tabs).
pub fn is_text_value_exec(v: &[u8]) -> (r: bool)
    ensures
        r == is_text_value(v@),
{
    let mut i: usize = 0;
    while i < v.len()
        invariant
            i <= v.len(),
            forall|k: int| 0 <= k < i ==> (32 <= #[trigger] v@[k] && v@[k] < 127) || v@[k] == 9,
        decreases v.len() - i,
    {
        if !((32 <= v[i] && v[i] < 127) || v[i] == 9) {
            return false;
        }
        i = i + 1;
    }
    true
}

/// Whether a header may carry `v` as its value.
pub fn is_valid_value_exec(v: &[u8]) -> (r: bool)
    ensures
        r == is_valid_value(v@),
{
    let mut i: usize = 0;
    while i < v.len()
        invariant
            i <= v.len(),
            forall|k: int| 0 <= k < i ==> (32 <= #[trigger] v@[k] && v@[k] != 127) || v@[k] == 9,
        decreases v.len() - i,
    {
        if !((32 <= v[i] && v[i] != 127) || v[i] == 9) {
            return false;
        }
        i = i + 1;
    }
    true
}

/// Stripping hop-by-hop headers keeps exactly the other headers, with their
/// values and in their order, and leaves no hop-by-hop header in any letter
/// case.
pub proof fn lemma_end_to_end(hs: Seq<(Seq<u8>, Seq<u8>)>)
    ensures
        end_to_end(hs) == hs.filter(|h: (Seq<u8>, Seq<u8>)| !is_hop(h.0)),
        forall|i: int| 0 <= i < end_to_end(hs).len() ==> !is_hop(#[trigger] end_to_end(hs)[i].0),
    decreases hs.len(),
{
    reveal(Seq::filter);
    if hs.len() > 0 {
        lemma_end_to_end(hs.drop_last());
    }
}

/// Index of the first `name` header in `hs`, or -1.
pub open spec fn first_pos(hs: Seq<(Seq<u8>, Seq<u8>)>, name: Seq<u8>) -> int
    decreases hs.len(),
{
    if hs.len() == 0 {
        -1
    } else if same_name(hs[0].0, name) {
        0
    } else {
        let p = first_pos(hs.subrange(1, hs.len() as int), name);
        if p < 0 {
            -1
        } else {
            p + 1
        }
    }
}

/// `hs` with `name: value` stored in place: the first `name` header takes
/// the value where it stands and later ones go; with none, the header is
/// added at the end.
pub open spec fn insert_header(hs: Seq<(Seq<u8>, Seq<u8>)>, name: Seq<u8>, value: Seq<u8>) -> Seq<
    (Seq<u8>, Seq<u8>),
> {
    let i = first_pos(hs, name);
    if i < 0 {
        hs.push((name, value))
    } else {
        hs.subrange(0, i).push((hs[i].0, value)) + without(hs.subrange(i + 1, hs.len() as int), name)
    }
}

proof fn lemma_first_pos(hs: Seq<(Seq<u8>, Seq<u8>)>, name: Seq<u8>, i: int)
    requires
        0 <= i <= hs.len(),
        forall|k: int| 0 <= k < i ==> !same_name(#[trigger] hs[k].0, name),
        i < hs.len() ==> same_name(hs[i].0, name),
    ensures
        first_pos(hs, name) == if i == hs.len() {
            -1
        } else {
            i
        },
    decreases i,
{
    if i > 0 {
        let t = hs.subrange(1, hs.len() as int);
        assert forall|k: int| 0 <= k < i - 1 implies !same_name(#[trigger] t[k].0, name) by {
            assert(t[k] == hs[k + 1]);
        }
        assert(!same_name(hs[0].0, name));
        lemma_first_pos(t, name, i - 1);
    } else if hs.len() == 0 {
    }
}

/// Stores `name: value` in place (see `insert_header`).
pub fn insert_header_exec(headers: &mut Vec<Header>, name: Vec<u8>, value: Vec<u8>)
    ensures
        hviews(final(headers)@) == insert_header(hviews(old(headers)@), name@, value@),
{
    let ghost hs = hviews(headers@);
    let mut i: usize = 0;
    while i < headers.len() && !eq_ignore_ascii_case(headers[i].name.as_slice(), name.as_slice())
        invariant
            i <= headers.len(),
            hs == hviews(headers@),
            forall|k: int| 0 <= k < i ==> !same_name(#[trigger] hs[k].0, name@),
        decreases headers.len() - i,
    {
        assert(hs[i as int] == headers@[i as int]@);
        i = i + 1;
    }
    proof {
        if i < hs.len() {
            assert(hs[i as int] == headers@[i as int]@);
        }
        lemma_first_pos(hs, name@, i as int);
    }
    if i == headers.len() {
        let ghost before = hviews(headers@);
        headers.push(Header { name, value });
        assert(hviews(headers@) =~= before.push((name@, value@)));
        return;
    }
    let mut rest = headers.split_off(i + 1);
    assert(hviews(rest@) =~= hs.subrange(i + 1, hs.len() as int));
    remove_named(&mut rest, name.as_slice());
    let last = headers.pop().unwrap();
    let ghost front = hviews(headers@);
    assert(front =~= hs.subrange(0, i as int));
    assert(last@ == hs[i as int]);
    headers.push(Header { name: last.name, value });
    let ghost mid = hviews(headers@);
    assert(mid =~= front.push((hs[i as int].0, value@)));
    let ghost tail = hviews(rest@);
    headers.append(&mut rest);
    assert(hviews(headers@) =~= mid + tail);
}

/// Storing a header that is not hop-by-hop keeps a list free of them.
pub proof fn lemma_insert_end_to_end(hs: Seq<(Seq<u8>, Seq<u8>)>, name: Seq<u8>, value: Seq<u8>)
    requires
        forall|k: int| 0 <= k < hs.len() ==> !is_hop(#[trigger] hs[k].0),
        !is_hop(name),
    ensures
        forall|k: int|
            0 <= k < insert_header(hs, name, value).len() ==> !is_hop(
                #[trigger] insert_header(hs, name, value)[k].0,
            ),
{
    let i = first_pos(hs, name);
    lemma_first_pos_range(hs, name);
    if i >= 0 {
        let t = hs.subrange(i + 1, hs.len() as int);
        assert forall|k: int| 0 <= k < t.len() implies !is_hop(#[trigger] t[k].0) by {
            assert(t[k] == hs[k + i + 1]);
        }
        lemma_without_end_to_end(t, name);
        let a = hs.subrange(0, i).push((hs[i].0, value));
        let w = without(t, name);
        assert forall|k: int| 0 <= k < (a + w).len() implies !is_hop(#[trigger] (a + w)[k].0) by {
            if k < i {
                assert((a + w)[k] == hs[k]);
            } else if k == i {
                assert((a + w)[k].0 == hs[i].0);
            } else {
                assert((a + w)[k] == w[k - a.len()]);
            }
        }
    }
}

proof fn lemma_first_pos_range(hs: Seq<(Seq<u8>, Seq<u8>)>, name: Seq<u8>)
    ensures
        -1 <= first_pos(hs, name) < hs.len(),
    decreases hs.len(),
{
    if hs.len() > 0 {
        lemma_first_pos_range(hs.subrange(1, hs.len() as int), name);
    }
}

/// Removing headers keeps a list free of hop-by-hop headers.
pub proof fn lemma_without_end_to_end(hs: Seq<(Seq<u8>, Seq<u8>)>, name: Seq<u8>)
    requires
        forall|i: int| 0 <= i < hs.len() ==> !is_hop(#[trigger] hs[i].0),
    ensures
        forall|i: int| 0 <= i < without(hs, name).len() ==> !is_hop(#[trigger] without(hs, name)[i].0),
    decreases hs.len(),
{
    if hs.len() > 0 {
        let front = hs.drop_last();
        assert forall|i: int| 0 <= i < front.len() implies !is_hop(#[trigger] front[i].0) by {
            assert(front[i] == hs[i]);
        }
        lemma_without_end_to_end(front, name);
        let p = without(front, name);
        let w = without(hs, name);
        assert forall|i: int| 0 <= i < w.len() implies !is_hop(#[trigger] w[i].0) by {
            if i < p.len() {
                assert(w[i] == p[i]);
            } else {
                assert(w[i] == hs[hs.len() - 1]);
            }
        }
    }
}

} // verus!
