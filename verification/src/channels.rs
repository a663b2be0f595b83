//! The channels of other peers, as an application lists them.

use vstd::prelude::*;
use vstd::relations::{sorted_by, total_ordering};
use vstd::utf8::encode_utf8;

use crate::audio::state::{AudioState, KnownChannel, KnownChannelView};
use crate::order::{lemma_insert_multiset, lemma_insert_sorted};
use crate::table::Route;
use crate::wire::codec::same_bytes;

verus! {

/// A remote channel visible through announcements.
#[derive(Debug, Clone, PartialEq, Eq)]
pub struct VisibleChannel {
    pub peer_name: String,
    pub name: String,
    pub id: [u8; 8],
}

/// The content of a [`VisibleChannel`].
#[verifier::ext_equal]
pub struct VisibleChannelView {
    pub peer_name: Seq<char>,
    pub name: Seq<char>,
    pub id: [u8; 8],
}

impl View for VisibleChannel {
    type V = VisibleChannelView;

    open spec fn view(&self) -> VisibleChannelView {
        VisibleChannelView { peer_name: self.peer_name@, name: self.name@, id: self.id }
    }
}

pub open spec fn visible_views(list: Seq<VisibleChannel>) -> Seq<VisibleChannelView> {
    Seq::new(list.len(), |i: int| list[i]@)
}

// -------------------------------------------------------------------- text

/// The text that `String::from_utf8_lossy` makes of bytes.
pub uninterp spec fn lossy_text(bytes: Seq<u8>) -> Seq<char>;

/// The text of bytes by `String::from_utf8_lossy`: bytes that are UTF-8 are
/// that text; what is not UTF-8 is replaced by replacement characters, how
/// many of them being left to the name of the result.
#[verifier::external_body]
fn text_of(bytes: &[u8]) -> (s: String)
    ensures
        s@ == lossy_text(bytes@),
        vstd::utf8::valid_utf8(bytes@) ==> encode_utf8(s@) == bytes@,
{
    String::from_utf8_lossy(bytes).into_owned()
}

/// A known channel as it is listed.
pub open spec fn listed(e: (Route, KnownChannelView)) -> VisibleChannelView {
    VisibleChannelView {
        peer_name: lossy_text(e.1.peer_name),
        name: lossy_text(e.1.name),
        id: e.0.id.0,
    }
}

/// All known channels as they are listed.
pub open spec fn all_listed(known: Seq<(Route, KnownChannelView)>) -> Seq<VisibleChannelView> {
    Seq::new(known.len(), |i: int| listed(known[i]))
}

// ------------------------------------------------------------------- order

/// Byte-wise order.
pub open spec fn bytes_leq(a: Seq<u8>, b: Seq<u8>) -> bool
    decreases a.len(),
{
    if a.len() == 0 {
        true
    } else if b.len() == 0 {
        false
    } else if a[0] != b[0] {
        a[0] < b[0]
    } else {
        bytes_leq(a.skip(1), b.skip(1))
    }
}

proof fn lemma_bytes_reflexive(a: Seq<u8>)
    ensures
        bytes_leq(a, a),
    decreases a.len(),
{
    if a.len() > 0 {
        lemma_bytes_reflexive(a.skip(1));
    }
}

proof fn lemma_bytes_antisymmetric(a: Seq<u8>, b: Seq<u8>)
    requires
        bytes_leq(a, b),
        bytes_leq(b, a),
    ensures
        a == b,
    decreases a.len(),
{
    if a.len() > 0 && b.len() > 0 {
        lemma_bytes_antisymmetric(a.skip(1), b.skip(1));
        assert(a =~= seq![a[0]] + a.skip(1));
        assert(b =~= seq![b[0]] + b.skip(1));
    } else {
        assert(a =~= b);
    }
}

proof fn lemma_bytes_transitive(a: Seq<u8>, b: Seq<u8>, c: Seq<u8>)
    requires
        bytes_leq(a, b),
        bytes_leq(b, c),
    ensures
        bytes_leq(a, c),
    decreases a.len(),
{
    if a.len() > 0 && b.len() > 0 && c.len() > 0 && a[0] == b[0] && b[0] == c[0] {
        lemma_bytes_transitive(a.skip(1), b.skip(1), c.skip(1));
    }
}

proof fn lemma_bytes_connected(a: Seq<u8>, b: Seq<u8>)
    ensures
        bytes_leq(a, b) || bytes_leq(b, a),
    decreases a.len(),
{
    if a.len() > 0 && b.len() > 0 && a[0] == b[0] {
        lemma_bytes_connected(a.skip(1), b.skip(1));
    }
}

/// By peer name, then by channel name, then by identifier; names by their
/// bytes.
pub open spec fn channel_leq(a: VisibleChannelView, b: VisibleChannelView) -> bool {
    if a.peer_name != b.peer_name {
        bytes_leq(encode_utf8(a.peer_name), encode_utf8(b.peer_name))
    } else if a.name != b.name {
        bytes_leq(encode_utf8(a.name), encode_utf8(b.name))
    } else {
        bytes_leq(a.id@, b.id@)
    }
}

pub open spec fn channel_order() -> spec_fn(VisibleChannelView, VisibleChannelView) -> bool {
    |a: VisibleChannelView, b: VisibleChannelView| channel_leq(a, b)
}

proof fn lemma_text_order(a: Seq<char>, b: Seq<char>)
    requires
        bytes_leq(encode_utf8(a), encode_utf8(b)),
        bytes_leq(encode_utf8(b), encode_utf8(a)),
    ensures
        a == b,
{
    lemma_bytes_antisymmetric(encode_utf8(a), encode_utf8(b));
    vstd::utf8::encode_utf8_decode_utf8(a);
    vstd::utf8::encode_utf8_decode_utf8(b);
}

proof fn lemma_channel_transitive(
    a: VisibleChannelView,
    b: VisibleChannelView,
    c: VisibleChannelView,
)
    requires
        channel_leq(a, b),
        channel_leq(b, c),
    ensures
        channel_leq(a, c),
{
    let (pa, pb, pc) = (encode_utf8(a.peer_name), encode_utf8(b.peer_name), encode_utf8(c.peer_name));
    let (na, nb, nc) = (encode_utf8(a.name), encode_utf8(b.name), encode_utf8(c.name));
    lemma_bytes_reflexive(pa);
    lemma_bytes_reflexive(pb);
    lemma_bytes_reflexive(pc);
    lemma_bytes_reflexive(na);
    lemma_bytes_reflexive(nb);
    lemma_bytes_reflexive(nc);
    lemma_bytes_transitive(pa, pb, pc);
    if a.peer_name == c.peer_name {
        if a.peer_name != b.peer_name {
            lemma_text_order(a.peer_name, b.peer_name);
        }
        lemma_bytes_transitive(na, nb, nc);
        if a.name == c.name {
            if a.name != b.name {
                lemma_text_order(a.name, b.name);
            }
            lemma_bytes_transitive(a.id@, b.id@, c.id@);
        }
    }
}

proof fn lemma_channel_antisymmetric(a: VisibleChannelView, b: VisibleChannelView)
    requires
        channel_leq(a, b),
        channel_leq(b, a),
    ensures
        a == b,
{
    if a.peer_name != b.peer_name {
        lemma_text_order(a.peer_name, b.peer_name);
    }
    if a.name != b.name {
        lemma_text_order(a.name, b.name);
    }
    lemma_bytes_antisymmetric(a.id@, b.id@);
    assert(a.id =~= b.id);
}

pub proof fn lemma_channel_order()
    ensures
        total_ordering(channel_order()),
{
    let leq = channel_order();
    assert forall|a: VisibleChannelView| #[trigger] leq(a, a) by {
        lemma_bytes_reflexive(a.id@);
    }
    assert forall|a: VisibleChannelView, b: VisibleChannelView| #[trigger]
        leq(a, b) && #[trigger] leq(b, a) implies a == b by {
        lemma_channel_antisymmetric(a, b);
    }
    assert forall|a: VisibleChannelView, b: VisibleChannelView, c: VisibleChannelView| #[trigger]
        leq(a, b) && #[trigger] leq(b, c) implies leq(a, c) by {
        lemma_channel_transitive(a, b, c);
    }
    assert forall|a: VisibleChannelView, b: VisibleChannelView| #[trigger]
        leq(a, b) || #[trigger] leq(b, a) by {
        lemma_bytes_connected(encode_utf8(a.peer_name), encode_utf8(b.peer_name));
        lemma_bytes_connected(encode_utf8(a.name), encode_utf8(b.name));
        lemma_bytes_connected(a.id@, b.id@);
    }
}

fn bytes_at_most(a: &[u8], b: &[u8]) -> (r: bool)
    ensures
        r == bytes_leq(a@, b@),
{
    let mut i: usize = 0;
    proof {
        assert(a@.skip(0) =~= a@);
        assert(b@.skip(0) =~= b@);
    }
    while i < a.len() && i < b.len()
        invariant
            i <= a@.len(),
            i <= b@.len(),
            bytes_leq(a@, b@) == bytes_leq(a@.skip(i as int), b@.skip(i as int)),
        decreases a@.len() - i,
    {
        proof {
            assert(a@.skip(i as int).skip(1) =~= a@.skip(i + 1));
            assert(b@.skip(i as int).skip(1) =~= b@.skip(i + 1));
            assert(a@.skip(i as int)[0] == a@[i as int]);
            assert(b@.skip(i as int)[0] == b@[i as int]);
        }
        if a[i] != b[i] {
            return a[i] < b[i];
        }
        i = i + 1;
    }
    i == a.len()
}

fn same_text(a: &String, b: &String) -> (r: bool)
    ensures
        r == (a@ == b@),
{
    *a == *b
}

fn channel_at_most(a: &VisibleChannel, b: &VisibleChannel) -> (r: bool)
    ensures
        r == channel_leq(a@, b@),
{
    if !same_text(&a.peer_name, &b.peer_name) {
        bytes_at_most(a.peer_name.as_str().as_bytes(), b.peer_name.as_str().as_bytes())
    } else if !same_text(&a.name, &b.name) {
        bytes_at_most(a.name.as_str().as_bytes(), b.name.as_str().as_bytes())
    } else {
        bytes_at_most(a.id.as_slice(), b.id.as_slice())
    }
}

// ----------------------------------------------------------------- listing

/// Whether a list names a channel.
pub open spec fn has_id(list: Seq<VisibleChannelView>, id: [u8; 8]) -> bool {
    exists|j: int| 0 <= j < list.len() && (#[trigger] list[j]).id == id
}

/// The list with the first entry of each channel alone.
pub open spec fn deduped(s: Seq<VisibleChannelView>) -> Seq<VisibleChannelView>
    decreases s.len(),
{
    if s.len() == 0 {
        s
    } else {
        let front = deduped(s.drop_last());
        if has_id(front, s.last().id) {
            front
        } else {
            front.push(s.last())
        }
    }
}

/// A list in order, each channel once.
pub open spec fn arranged(list: Seq<VisibleChannelView>) -> Seq<VisibleChannelView> {
    deduped(list.sort_by(channel_order()))
}

/// The listing of known channels.
pub open spec fn listing(known: Seq<(Route, KnownChannelView)>) -> Seq<VisibleChannelView> {
    arranged(all_listed(known))
}

fn list_channel(id: [u8; 8], kc: &KnownChannel) -> (c: VisibleChannel)
    ensures
        c@ == (VisibleChannelView {
            peer_name: lossy_text(kc@.peer_name),
            name: lossy_text(kc@.name),
            id,
        }),
{
    VisibleChannel {
        peer_name: text_of(kc.peer_name.as_slice()),
        name: text_of(kc.name.as_slice()),
        id,
    }
}

/// The list in order.
fn sorted(list: Vec<VisibleChannel>) -> (v: Vec<VisibleChannel>)
    ensures
        visible_views(v@) == visible_views(list@).sort_by(channel_order()),
{
    let ghost leq = channel_order();
    let ghost all = visible_views(list@);
    let mut rest = list;
    let mut v: Vec<VisibleChannel> = Vec::new();
    proof {
        lemma_channel_order();
        assert(visible_views(v@) =~= all.skip(all.len() as int));
    }
    while rest.len() > 0
        invariant
            rest@.len() <= all.len(),
            visible_views(rest@) == all.take(rest@.len() as int),
            leq == channel_order(),
            total_ordering(leq),
            sorted_by(visible_views(v@), leq),
            visible_views(v@).to_multiset() == all.skip(rest@.len() as int).to_multiset(),
        decreases rest@.len(),
    {
        let ghost n = rest@.len() - 1;
        let ghost left = visible_views(rest@);
        let c = rest.remove(rest.len() - 1);
        let ghost x = c@;
        let ghost before = visible_views(v@);
        let mut k: usize = v.len();
        while k > 0 && !channel_at_most(&v[k - 1], &c)
            invariant
                k <= v@.len(),
                leq == channel_order(),
                total_ordering(leq),
                before == visible_views(v@),
                x == c@,
                sorted_by(before, leq),
                forall|j: int| k <= j < before.len() ==> leq(x, #[trigger] before[j]),
            decreases k,
        {
            proof {
                assert(leq(before[k - 1], x) || leq(x, before[k - 1]));
            }
            k = k - 1;
        }
        v.insert(k, c);
        proof {
            assert(visible_views(rest@) =~= left.drop_last());
            assert(all.take(n + 1).drop_last() =~= all.take(n));
            assert(left[n] == x);
            assert(visible_views(v@) =~= before.insert(k as int, x));
            lemma_insert_multiset(before, k as int, x);
            lemma_insert_sorted(before, k as int, x, leq);
            assert(all.skip(n) =~= all.skip(n + 1).insert(0, x));
            lemma_insert_multiset(all.skip(n + 1), 0, x);
        }
    }
    proof {
        assert(all.skip(0) =~= all);
        all.lemma_sort_by_ensures(leq);
        vstd::seq_lib::lemma_sorted_unique(visible_views(v@), all.sort_by(leq), leq);
    }
    v
}

fn same_id(a: &[u8; 8], b: &[u8; 8]) -> (r: bool)
    ensures
        r == (*a == *b),
{
    let r = same_bytes(a.as_slice(), b.as_slice());
    proof {
        if r {
            assert(*a =~= *b);
        }
    }
    r
}

fn lists(v: &Vec<VisibleChannel>, id: &[u8; 8]) -> (r: bool)
    ensures
        r == has_id(visible_views(v@), *id),
{
    let ghost list = visible_views(v@);
    let mut i: usize = 0;
    while i < v.len()
        invariant
            i <= v@.len(),
            list == visible_views(v@),
            forall|j: int| 0 <= j < i ==> (#[trigger] list[j]).id != *id,
        decreases v@.len() - i,
    {
        if same_id(&v[i].id, id) {
            proof {
                assert(list[i as int].id == *id);
            }
            return true;
        }
        i = i + 1;
    }
    false
}

/// The list sorted by peer name then channel name, each channel once: of
/// several entries of a channel the first in that order stays.
pub fn arrange(list: Vec<VisibleChannel>) -> (v: Vec<VisibleChannel>)
    ensures
        visible_views(v@) == arranged(visible_views(list@)),
{
    let mut rest = sorted(list);
    let ghost all = visible_views(rest@);
    let mut v: Vec<VisibleChannel> = Vec::new();
    let ghost mut done: int = 0;
    proof {
        assert(visible_views(v@) =~= deduped(all.take(0)));
    }
    while rest.len() > 0
        invariant
            0 <= done <= all.len(),
            visible_views(rest@) == all.skip(done),
            visible_views(v@) == deduped(all.take(done)),
        decreases rest@.len(),
    {
        let ghost left = visible_views(rest@);
        let ghost kept = visible_views(v@);
        let c = rest.remove(0);
        proof {
            assert(left[0] == c@);
            assert(visible_views(rest@) =~= left.skip(1));
            assert(all.skip(done).skip(1) =~= all.skip(done + 1));
            assert(all.take(done + 1).drop_last() =~= all.take(done));
            assert(all.take(done + 1).last() == c@);
        }
        if !lists(&v, &c.id) {
            v.push(c);
            proof {
                assert(visible_views(v@) =~= kept.push(c@));
            }
        }
        proof {
            done = done + 1;
        }
    }
    proof {
        assert(all.take(done) =~= all);
    }
    v
}

/// The channels that announcements made known, sorted by peer name then channel
/// name, deduplicated across gateways.
pub fn list_channels(audio: &AudioState) -> (v: Vec<VisibleChannel>)
    ensures
        visible_views(v@) == listing(audio@.known),
{
    let mut list: Vec<VisibleChannel> = Vec::new();
    let mut i: usize = 0;
    while i < audio.known.items.len()
        invariant
            i <= audio.known.items@.len(),
            visible_views(list@) =~= all_listed(audio@.known).take(i as int),
        decreases audio.known.items@.len() - i,
    {
        let c = list_channel(audio.known.items[i].0.id.0, &audio.known.items[i].1);
        let ghost before = visible_views(list@);
        list.push(c);
        proof {
            assert(visible_views(list@) =~= before.push(c@));
            assert(all_listed(audio@.known)[i as int] == c@);
        }
        i = i + 1;
    }
    proof {
        assert(visible_views(list@) =~= all_listed(audio@.known));
    }
    arrange(list)
}

// -------------------------------------------------------------------- laws

/// The listing is sorted and names each channel once, whatever names it was
/// announced under through the gateways; it holds known channels, every one of
/// them.
pub proof fn law_listing_is_sorted_and_complete(known: Seq<(Route, KnownChannelView)>)
    ensures
        sorted_by(listing(known), channel_order()),
        forall|i: int, j: int|
            0 <= i < j < listing(known).len() ==> (#[trigger] listing(known)[i]).id != (
            #[trigger] listing(known)[j]).id,
        forall|i: int|
            0 <= i < known.len() ==> has_id(listing(known), (#[trigger] known[i]).0.id.0),
        forall|j: int|
            0 <= j < listing(known).len() ==> all_listed(known).contains(
                #[trigger] listing(known)[j],
            ),
{
    broadcast use vstd::seq_lib::group_to_multiset_ensures;

    let leq = channel_order();
    let all = all_listed(known);
    let s = all.sort_by(leq);
    let d = listing(known);
    lemma_channel_order();
    all.lemma_sort_by_ensures(leq);
    lemma_deduped(s);
    assert forall|i: int| 0 <= i < known.len() implies has_id(
        d,
        (#[trigger] known[i]).0.id.0,
    ) by {
        let x = listed(known[i]);
        assert(all[i] == x);
        assert(all.contains(x));
        assert(s.to_multiset().count(x) > 0);
        assert(s.contains(x));
        let m = choose|m: int| 0 <= m < s.len() && s[m] == x;
        lemma_deduped_keeps(s, m);
    }
    assert forall|j: int| 0 <= j < d.len() implies all.contains(#[trigger] d[j]) by {
        assert(s.contains(d[j]));
        assert(s.to_multiset().count(d[j]) > 0);
        assert(all.to_multiset().count(d[j]) > 0);
    }
}

proof fn lemma_deduped(s: Seq<VisibleChannelView>)
    requires
        sorted_by(s, channel_order()),
    ensures
        sorted_by(deduped(s), channel_order()),
        forall|i: int, j: int|
            0 <= i < j < deduped(s).len() ==> (#[trigger] deduped(s)[i]).id != (
            #[trigger] deduped(s)[j]).id,
        forall|i: int| 0 <= i < deduped(s).len() ==> s.contains(#[trigger] deduped(s)[i]),
    decreases s.len(),
{
    let leq = channel_order();
    let d = deduped(s);
    if s.len() > 0 {
        let front = s.drop_last();
        let f = deduped(front);
        let x = s.last();
        assert(s[s.len() - 1] == x);
        assert forall|i: int, j: int| 0 <= i < j < front.len() implies #[trigger] leq(
            front[i],
            front[j],
        ) by {
            assert(leq(s[i], s[j]));
        }
        lemma_deduped(front);
        assert forall|i: int| 0 <= i < f.len() implies s.contains(#[trigger] f[i]) && leq(f[i], x) by {
            assert(front.contains(f[i]));
            let m = choose|m: int| 0 <= m < front.len() && front[m] == f[i];
            assert(s[m] == f[i]);
            assert(leq(s[m], s[s.len() - 1]));
        }
        assert forall|i: int, j: int| 0 <= i < j < d.len() implies #[trigger] leq(d[i], d[j]) by {
            if j < f.len() {
                assert(leq(f[i], f[j]));
            } else {
                assert(leq(f[i], x));
            }
        }
        assert forall|i: int| 0 <= i < d.len() implies s.contains(#[trigger] d[i]) by {
            if i < f.len() {
                assert(d[i] == f[i]);
            }
        }
        assert forall|i: int, j: int| 0 <= i < j < d.len() implies (#[trigger] d[i]).id != (
        #[trigger] d[j]).id by {
            assert(d[i] == f[i]);
            if j < f.len() {
                assert(d[j] == f[j]);
            }
        }
    }
}

proof fn lemma_deduped_keeps(s: Seq<VisibleChannelView>, m: int)
    requires
        0 <= m < s.len(),
    ensures
        has_id(deduped(s), s[m].id),
    decreases s.len(),
{
    let d = deduped(s);
    let front = s.drop_last();
    let f = deduped(front);
    if m < front.len() {
        lemma_deduped_keeps(front, m);
        let j = choose|j: int| 0 <= j < f.len() && (#[trigger] f[j]).id == front[m].id;
        assert(d[j] == f[j]);
    } else if !has_id(f, s.last().id) {
        assert(d[f.len() as int].id == s[m].id);
    }
}

/// Whether bytes come before others, or are the same: they are the beginning of
/// them, or have the lesser byte where the two first differ.
pub open spec fn comes_first(a: Seq<u8>, b: Seq<u8>) -> bool {
    a.is_prefix_of(b) || exists|p: int|
        0 <= p < a.len() && p < b.len() && #[trigger] a[p] < b[p] && a.take(p) == b.take(p)
}

proof fn lemma_comes_first(a: Seq<u8>, b: Seq<u8>)
    requires
        bytes_leq(a, b),
    ensures
        comes_first(a, b),
    decreases a.len(),
{
    if a.len() > 0 && b.len() > 0 {
        if a[0] < b[0] {
            assert(a.take(0) =~= b.take(0));
        } else {
            let (x, y) = (a.skip(1), b.skip(1));
            lemma_comes_first(x, y);
            if x.is_prefix_of(y) {
                assert forall|i: int| 0 <= i < a.len() implies a[i] == b[i] by {
                    if i > 0 {
                        assert(x[i - 1] == y[i - 1]);
                    }
                }
                assert(a.is_prefix_of(b));
            } else {
                let p = choose|p: int|
                    0 <= p < x.len() && p < y.len() && #[trigger] x[p] < y[p] && x.take(p)
                        == y.take(p);
                assert(a[p + 1] < b[p + 1]);
                let (u, v) = (a.take(p + 1), b.take(p + 1));
                assert forall|i: int| 0 <= i < p + 1 implies #[trigger] u[i] == v[i] by {
                    if i > 0 {
                        assert(x.take(p)[i - 1] == y.take(p)[i - 1]);
                    }
                }
                assert(a.take(p + 1) =~= b.take(p + 1));
            }
        }
    }
}

/// The listing is in the order of the peers' names, and of one peer's name in
/// that of the channels', byte by byte.
pub proof fn law_listing_is_in_order_of_names(
    known: Seq<(Route, KnownChannelView)>,
    i: int,
    j: int,
)
    requires
        0 <= i < j < listing(known).len(),
    ensures
        ({
            let (a, b) = (listing(known)[i], listing(known)[j]);
            &&& a.peer_name != b.peer_name ==> comes_first(
                encode_utf8(a.peer_name),
                encode_utf8(b.peer_name),
            )
            &&& a.peer_name == b.peer_name && a.name != b.name ==> comes_first(
                encode_utf8(a.name),
                encode_utf8(b.name),
            )
        }),
{
    law_listing_is_sorted_and_complete(known);
    let (a, b) = (listing(known)[i], listing(known)[j]);
    let leq = channel_order();
    assert(leq(a, b));
    if a.peer_name != b.peer_name {
        lemma_comes_first(encode_utf8(a.peer_name), encode_utf8(b.peer_name));
    } else if a.name != b.name {
        lemma_comes_first(encode_utf8(a.name), encode_utf8(b.name));
    }
}

/// Each entry of the listing shows a channel that was announced: its
/// identifier, its name and the name of its publisher; and every channel that is
/// known is shown.
pub proof fn law_listing_shows_what_was_announced(
    known: Seq<(Route, KnownChannelView)>,
    i: int,
    j: int,
)
    ensures
        0 <= j < listing(known).len() ==> exists|k: int|
            0 <= k < known.len() && listing(known)[j].id == (#[trigger] known[k]).0.id.0
                && listing(known)[j].name == lossy_text(known[k].1.name)
                && listing(known)[j].peer_name == lossy_text(known[k].1.peer_name),
        0 <= i < known.len() ==> exists|k: int|
            0 <= k < listing(known).len() && (#[trigger] listing(known)[k]).id == known[i].0.id.0,
{
    law_listing_is_sorted_and_complete(known);
    let all = all_listed(known);
    if 0 <= j < listing(known).len() {
        assert(all.contains(listing(known)[j]));
        let k = choose|k: int| 0 <= k < all.len() && all[k] == listing(known)[j];
        assert(listing(known)[j].id == known[k].0.id.0);
    }
    if 0 <= i < known.len() {
        assert(has_id(listing(known), known[i].0.id.0));
    }
}

/// An entry that stays stands no later than any other of its channel.
proof fn lemma_deduped_is_first(s: Seq<VisibleChannelView>, j: int, m: int) -> (p: int)
    requires
        0 <= j < deduped(s).len(),
        0 <= m < s.len(),
        s[m].id == deduped(s)[j].id,
    ensures
        0 <= p <= m,
        s[p] == deduped(s)[j],
    decreases s.len(),
{
    let front = s.drop_last();
    let f = deduped(front);
    let d = deduped(s);
    if j < f.len() {
        assert(d[j] == f[j]);
        if m < front.len() {
            assert(front[m] == s[m]);
            let p = lemma_deduped_is_first(front, j, m);
            assert(front[p] == s[p]);
            p
        } else {
            let p = lemma_deduped_stands(front, j);
            assert(front[p] == s[p]);
            p
        }
    } else {
        if m < front.len() {
            lemma_deduped_keeps(front, m);
            assert(front[m] == s[m]);
            assert(has_id(f, s.last().id));
        }
        s.len() - 1
    }
}

proof fn lemma_deduped_stands(s: Seq<VisibleChannelView>, j: int) -> (p: int)
    requires
        0 <= j < deduped(s).len(),
    ensures
        0 <= p < s.len(),
        s[p] == deduped(s)[j],
    decreases s.len(),
{
    let front = s.drop_last();
    let f = deduped(front);
    if j < f.len() {
        assert(deduped(s)[j] == f[j]);
        let p = lemma_deduped_stands(front, j);
        assert(front[p] == s[p]);
        p
    } else {
        s.len() - 1
    }
}

/// Of a channel that is known under several names the listing shows the one that
/// comes first: by the publisher's name, then by its own.
pub proof fn law_listing_shows_the_first_name(
    known: Seq<(Route, KnownChannelView)>,
    j: int,
    k: int,
)
    requires
        0 <= j < listing(known).len(),
        0 <= k < known.len(),
        listing(known)[j].id == known[k].0.id.0,
    ensures
        ({
            let shown = listing(known)[j];
            let peer_name = lossy_text(known[k].1.peer_name);
            let name = lossy_text(known[k].1.name);
            &&& shown.peer_name != peer_name ==> comes_first(
                encode_utf8(shown.peer_name),
                encode_utf8(peer_name),
            )
            &&& shown.peer_name == peer_name && shown.name != name ==> comes_first(
                encode_utf8(shown.name),
                encode_utf8(name),
            )
        }),
{
    broadcast use vstd::seq_lib::group_to_multiset_ensures;

    let leq = channel_order();
    let all = all_listed(known);
    let s = all.sort_by(leq);
    let shown = listing(known)[j];
    let other = listed(known[k]);
    lemma_channel_order();
    all.lemma_sort_by_ensures(leq);
    assert(all[k] == other);
    assert(all.contains(other));
    assert(s.to_multiset().count(other) > 0);
    assert(s.contains(other));
    let m = choose|m: int| 0 <= m < s.len() && s[m] == other;
    let p = lemma_deduped_is_first(s, j, m);
    assert(leq(s[p], s[m])) by {
        if p == m {
            assert(leq(other, other));
        }
    }
    if shown.peer_name != other.peer_name {
        lemma_comes_first(encode_utf8(shown.peer_name), encode_utf8(other.peer_name));
    } else if shown.name != other.name {
        lemma_comes_first(encode_utf8(shown.name), encode_utf8(other.name));
    }
}

} // verus!
