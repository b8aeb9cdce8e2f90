//! The tag codec: 32-bit tag masks and the sets of tag indices they stand for.
//!
//! A compositor labels views and outputs with up to thirty-two tags, numbered
//! from 1. On the wire a set of tags is a 32-bit mask in which bit `i` stands
//! for tag `i + 1`.

use vstd::prelude::*;

verus! {

/// Whether `tag` is one of the thirty-two tag indices.
pub open spec fn is_tag(tag: u8) -> bool {
    1 <= tag <= 32
}

/// The mask in which only the bit of `tag` is set.
pub open spec fn tag_bit(tag: u8) -> u32 {
    1u32 << ((tag - 1) as u32)
}

/// Whether the bit of `tag` is set in `mask`.
pub open spec fn has_tag(mask: u32, tag: u8) -> bool {
    is_tag(tag) && (mask >> ((tag - 1) as u32)) & 1 == 1
}

/// The set of tags that `mask` stands for.
pub open spec fn tags_of(mask: u32) -> Set<u8> {
    Set::new(|tag: u8| has_tag(mask, tag))
}

/// The members of `set` that are tags up to `upto`, in ascending order.
pub open spec fn listing_upto(set: Set<u8>, upto: u8) -> Seq<u8>
    decreases upto,
{
    if upto == 0 {
        Seq::empty()
    } else {
        let below = listing_upto(set, (upto - 1) as u8);
        if set.contains(upto) {
            below.push(upto)
        } else {
            below
        }
    }
}

/// The tags in `set`, in ascending order.
pub open spec fn listing(set: Set<u8>) -> Seq<u8> {
    listing_upto(set, 32)
}

/// The tag that `mask` names when it is the mask of exactly one tag.
pub open spec fn single_tag(mask: u32) -> Option<u8> {
    if exists|tag: u8| is_tag(tag) && mask == tag_bit(tag) {
        Some(choose|tag: u8| is_tag(tag) && mask == tag_bit(tag))
    } else {
        None
    }
}

/// Two tags with the same mask are the same tag.
pub proof fn lemma_tag_bit_injective(a: u8, b: u8)
    requires
        is_tag(a),
        is_tag(b),
        tag_bit(a) == tag_bit(b),
    ensures
        a == b,
{
    let x: u32 = (a - 1) as u32;
    let y: u32 = (b - 1) as u32;
    assert(x < 32 && y < 32 && (1u32 << x) == (1u32 << y) ==> x == y) by (bit_vector);
}

/// Decodes a mask that names a single tag.
///
/// Returns the tag whose bit is the only one set, and `None` when the mask is
/// zero or has more than one bit set.
pub fn decode_single(mask: u32) -> (r: Option<u8>)
    ensures
        r == single_tag(mask),
        match r {
            Some(tag) => is_tag(tag) && mask == tag_bit(tag),
            None => forall|tag: u8| is_tag(tag) ==> mask != tag_bit(tag),
        },
{
    let mut i: u8 = 0;
    while i < 32
        invariant
            i <= 32,
            forall|tag: u8| 1 <= tag <= i ==> mask != tag_bit(tag),
        decreases 32 - i,
    {
        if mask == 1u32 << (i as u32) {
            let tag: u8 = i + 1;
            proof {
                assert(is_tag(tag) && mask == tag_bit(tag));
                assert forall|other: u8| is_tag(other) && mask == tag_bit(other) implies other
                    == tag by {
                    lemma_tag_bit_injective(other, tag);
                }
            }
            return Some(tag);
        }
        i = i + 1;
    }
    None
}

/// A set of tags, held as the ascending list of its members.
pub struct TagSet {
    members: Vec<u8>,
}

impl TagSet {
    /// The members in the order in which they are listed.
    pub closed spec fn members(&self) -> Seq<u8> {
        self.members@
    }

    /// Every member is a tag, and the listing is strictly ascending.
    pub open spec fn wf(&self) -> bool {
        &&& forall|k: int| 0 <= k < self.members().len() ==> is_tag(#[trigger] self.members()[k])
        &&& forall|j: int, k: int|
            0 <= j < k < self.members().len() ==> self.members()[j] < self.members()[k]
    }

    /// The set of the members.
    pub open spec fn view(&self) -> Set<u8> {
        Set::new(|tag: u8| self.members().contains(tag))
    }

    /// The number of members.
    pub fn len(&self) -> (n: usize)
        ensures
            n == self.members().len(),
    {
        self.members.len()
    }

    /// The member at position `k` of the ascending listing.
    pub fn get(&self, k: usize) -> (tag: u8)
        requires
            k < self.members().len(),
        ensures
            tag == self.members()[k as int],
    {
        self.members[k]
    }

    /// The ascending listing of the members.
    pub fn as_slice(&self) -> (list: &[u8])
        ensures
            list@ == self.members(),
    {
        self.members.as_slice()
    }

    /// The listing of a well-formed set is the ascending listing of its
    /// members: the set decides the order in which they are held.
    pub proof fn lemma_members_listing(&self)
        requires
            self.wf(),
        ensures
            self.members() == listing(self@),
    {
        let k = self.lemma_prefix_listing(32);
        if k < self.members().len() {
            assert(is_tag(self.members()[k]));
        }
        assert(self.members().take(k) =~= self.members());
    }

    /// The members up to `upto` are a prefix of the listing, and that prefix
    /// is the ascending listing of the set up to `upto`.
    proof fn lemma_prefix_listing(&self, upto: u8) -> (k: int)
        requires
            self.wf(),
            upto <= 32,
        ensures
            0 <= k <= self.members().len(),
            self.members().take(k) == listing_upto(self@, upto),
            forall|j: int| 0 <= j < k ==> self.members()[j] <= upto,
            forall|j: int| k <= j < self.members().len() ==> self.members()[j] > upto,
        decreases upto,
    {
        let list = self.members();
        if upto == 0 {
            assert(list.take(0) =~= Seq::<u8>::empty());
            assert forall|j: int| 0 <= j < list.len() implies list[j] > 0 by {
                assert(is_tag(list[j]));
            }
            0
        } else {
            let below: u8 = (upto - 1) as u8;
            let k = self.lemma_prefix_listing(below);
            if self@.contains(upto) {
                let j = choose|j: int| 0 <= j < list.len() && list[j] == upto;
                assert(k <= j);
                if k < j {
                    assert(list[k] < list[j]);
                }
                assert(list[k] == upto);
                assert(list.take(k + 1) =~= list.take(k).push(upto));
                assert forall|i: int| k + 1 <= i < list.len() implies list[i] > upto by {
                    assert(list[k] < list[i]);
                }
                k + 1
            } else {
                assert forall|i: int| k <= i < list.len() implies list[i] > upto by {
                    if list[i] == upto {
                        assert(list.contains(upto));
                    }
                }
                k
            }
        }
    }
}

/// Setting the bit of a tag adds that tag and no other.
proof fn lemma_set_bit(mask: u32, tag: u8, other: u8)
    requires
        is_tag(tag),
        is_tag(other),
    ensures
        has_tag(mask | tag_bit(tag), other) <==> (has_tag(mask, other) || other == tag),
{
    let k: u32 = (tag - 1) as u32;
    let j: u32 = (other - 1) as u32;
    assert(k < 32 && j < 32 ==> ((((mask | (1u32 << k)) >> j) & 1 == 1) <==> (((mask >> j) & 1
        == 1) || j == k))) by (bit_vector);
}

/// Decodes a mask into the set of tags whose bits are set.
pub fn decode_set(mask: u32) -> (set: TagSet)
    ensures
        set.wf(),
        set@ == tags_of(mask),
        set.members() == listing(tags_of(mask)),
{
    let mut members: Vec<u8> = Vec::new();
    let mut i: u8 = 0;
    while i < 32
        invariant
            i <= 32,
            forall|k: int| 0 <= k < members@.len() ==> 1 <= #[trigger] members@[k] <= i,
            forall|j: int, k: int| 0 <= j < k < members@.len() ==> members@[j] < members@[k],
            forall|tag: u8| members@.contains(tag) <==> (has_tag(mask, tag) && tag <= i),
            members@ == listing_upto(tags_of(mask), i),
        decreases 32 - i,
    {
        let ghost before = members@;
        if (mask >> (i as u32)) & 1 == 1 {
            members.push(i + 1);
            assert(members@[members@.len() - 1] == i + 1);
            assert forall|tag: u8| members@.contains(tag) <==> (has_tag(mask, tag) && tag <= i
                + 1) by {
                if members@.contains(tag) {
                    let k = choose|k: int| 0 <= k < members@.len() && members@[k] == tag;
                    if k < before.len() {
                        assert(before[k] == tag);
                        assert(before.contains(tag));
                    }
                }
                if has_tag(mask, tag) && tag <= i + 1 {
                    if tag <= i {
                        assert(before.contains(tag));
                        let k = choose|k: int| 0 <= k < before.len() && before[k] == tag;
                        assert(members@[k] == tag);
                    } else {
                        assert(members@[members@.len() - 1] == tag);
                    }
                }
            }
        }
        i = i + 1;
    }
    let set = TagSet { members };
    assert(set@ =~= tags_of(mask));
    set
}

/// The mask with the bits of those members of `set` that are tags up to `upto`.
pub open spec fn mask_upto(set: Set<u8>, upto: u8) -> u32
    decreases upto,
{
    if upto == 0 {
        0
    } else {
        let below = mask_upto(set, (upto - 1) as u8);
        if set.contains(upto) {
            below | tag_bit(upto)
        } else {
            below
        }
    }
}

/// The mask that stands for `set`: the bit of each tag in it, and no other.
pub open spec fn mask_of(set: Set<u8>) -> u32 {
    mask_upto(set, 32)
}

/// Two masks that agree on every bit are equal.
proof fn lemma_bits_decide(a: u32, b: u32)
    requires
        forall|tag: u8| is_tag(tag) ==> (has_tag(a, tag) <==> has_tag(b, tag)),
    ensures
        a == b,
{
    assert forall|j: u32| j < 32 implies ((a >> j) & 1) == ((b >> j) & 1) by {
        let tag: u8 = (j + 1) as u8;
        assert(is_tag(tag));
        assert(((tag - 1) as u32) == j);
        assert(has_tag(a, tag) <==> has_tag(b, tag));
        assert(((a >> j) & 1) == 0 || ((a >> j) & 1) == 1) by (bit_vector);
        assert(((b >> j) & 1) == 0 || ((b >> j) & 1) == 1) by (bit_vector);
    }
    assert((((a >> 0u32) & 1) == ((b >> 0u32) & 1)
            && ((a >> 1u32) & 1) == ((b >> 1u32) & 1)
            && ((a >> 2u32) & 1) == ((b >> 2u32) & 1)
            && ((a >> 3u32) & 1) == ((b >> 3u32) & 1)
            && ((a >> 4u32) & 1) == ((b >> 4u32) & 1)
            && ((a >> 5u32) & 1) == ((b >> 5u32) & 1)
            && ((a >> 6u32) & 1) == ((b >> 6u32) & 1)
            && ((a >> 7u32) & 1) == ((b >> 7u32) & 1)
            && ((a >> 8u32) & 1) == ((b >> 8u32) & 1)
            && ((a >> 9u32) & 1) == ((b >> 9u32) & 1)
            && ((a >> 10u32) & 1) == ((b >> 10u32) & 1)
            && ((a >> 11u32) & 1) == ((b >> 11u32) & 1)
            && ((a >> 12u32) & 1) == ((b >> 12u32) & 1)
            && ((a >> 13u32) & 1) == ((b >> 13u32) & 1)
            && ((a >> 14u32) & 1) == ((b >> 14u32) & 1)
            && ((a >> 15u32) & 1) == ((b >> 15u32) & 1)
            && ((a >> 16u32) & 1) == ((b >> 16u32) & 1)
            && ((a >> 17u32) & 1) == ((b >> 17u32) & 1)
            && ((a >> 18u32) & 1) == ((b >> 18u32) & 1)
            && ((a >> 19u32) & 1) == ((b >> 19u32) & 1)
            && ((a >> 20u32) & 1) == ((b >> 20u32) & 1)
            && ((a >> 21u32) & 1) == ((b >> 21u32) & 1)
            && ((a >> 22u32) & 1) == ((b >> 22u32) & 1)
            && ((a >> 23u32) & 1) == ((b >> 23u32) & 1)
            && ((a >> 24u32) & 1) == ((b >> 24u32) & 1)
            && ((a >> 25u32) & 1) == ((b >> 25u32) & 1)
            && ((a >> 26u32) & 1) == ((b >> 26u32) & 1)
            && ((a >> 27u32) & 1) == ((b >> 27u32) & 1)
            && ((a >> 28u32) & 1) == ((b >> 28u32) & 1)
            && ((a >> 29u32) & 1) == ((b >> 29u32) & 1)
            && ((a >> 30u32) & 1) == ((b >> 30u32) & 1)
            && ((a >> 31u32) & 1) == ((b >> 31u32) & 1)) ==> a == b) by (bit_vector);
}

/// The bits of `mask_upto(set, upto)` are those of the members up to `upto`.
proof fn lemma_mask_upto_bits(set: Set<u8>, upto: u8, tag: u8)
    requires
        upto <= 32,
        is_tag(tag),
    ensures
        has_tag(mask_upto(set, upto), tag) <==> (set.contains(tag) && tag <= upto),
    decreases upto,
{
    let k: u32 = (tag - 1) as u32;
    if upto == 0 {
        assert(k < 32 ==> (0u32 >> k) & 1 == 0) by (bit_vector);
    } else {
        let below = mask_upto(set, (upto - 1) as u8);
        lemma_mask_upto_bits(set, (upto - 1) as u8, tag);
        if set.contains(upto) {
            lemma_set_bit(below, upto, tag);
        }
    }
}

/// The tags of the mask of a set are the tags that the set holds.
pub proof fn lemma_tags_of_mask_of(set: Set<u8>)
    ensures
        tags_of(mask_of(set)) == set.filter(|tag: u8| is_tag(tag)),
{
    assert forall|tag: u8|
        tags_of(mask_of(set)).contains(tag) <==> set.filter(|tag: u8| is_tag(tag)).contains(
            tag,
        ) by {
        if is_tag(tag) {
            lemma_mask_upto_bits(set, 32, tag);
        }
    }
    assert(tags_of(mask_of(set)) =~= set.filter(|tag: u8| is_tag(tag)));
}

/// Decoding a mask and encoding the result gives the mask back.
pub proof fn lemma_round_trip(mask: u32)
    ensures
        mask_of(tags_of(mask)) == mask,
{
    assert forall|tag: u8| is_tag(tag) implies (has_tag(mask_of(tags_of(mask)), tag) <==> has_tag(
        mask,
        tag,
    )) by {
        lemma_mask_upto_bits(tags_of(mask), 32, tag);
    }
    lemma_bits_decide(mask_of(tags_of(mask)), mask);
}

/// Encodes a set of tags as the mask that has exactly the bits of its members.
pub fn encode_set(set: &TagSet) -> (mask: u32)
    requires
        set.wf(),
    ensures
        mask == mask_of(set@),
        tags_of(mask) == set@,
{
    let mut mask: u32 = 0;
    let mut k: usize = 0;
    proof {
        assert forall|tag: u8| !has_tag(0u32, tag) by {
            let j: u32 = (tag - 1) as u32;
            assert(j < 32 ==> (0u32 >> j) & 1 == 0) by (bit_vector);
        }
    }
    while k < set.members.len()
        invariant
            k <= set.members@.len(),
            set.wf(),
            forall|tag: u8|
                has_tag(mask, tag) <==> exists|j: int| 0 <= j < k && set.members@[j] == tag,
        decreases set.members@.len() - k,
    {
        let tag: u8 = set.members[k];
        assert(is_tag(set.members()[k as int]));
        let ghost before = mask;
        mask = mask | (1u32 << ((tag - 1) as u32));
        proof {
            assert forall|other: u8|
                has_tag(mask, other) <==> exists|j: int|
                    0 <= j < k + 1 && set.members@[j] == other by {
                if is_tag(other) {
                    lemma_set_bit(before, tag, other);
                }
                if has_tag(before, other) {
                    let j = choose|j: int| 0 <= j < k && set.members@[j] == other;
                    assert(0 <= j < k + 1 && set.members@[j] == other);
                }
                if other == tag {
                    assert(0 <= k < k + 1 && set.members@[k as int] == other);
                }
            }
        }
        k = k + 1;
    }
    proof {
        assert(tags_of(mask) =~= set@);
        lemma_round_trip(mask);
    }
    mask
}

/// The value that stands in a list of view tags for a view whose mask names
/// no single tag.
pub const NO_TAG: u8 = 0;

/// The 32-bit value whose little-endian bytes are `b0`, `b1`, `b2`, `b3`.
pub open spec fn le_u32(b0: u8, b1: u8, b2: u8, b3: u8) -> u32 {
    (b0 + 256 * b1 + 65536 * b2 + 16777216 * b3) as u32
}

/// The entry that a view with tag mask `mask` gets in a list of view tags:
/// its tag when the mask names exactly one, and `NO_TAG` otherwise.
pub open spec fn view_tag(mask: u32) -> u8 {
    match single_tag(mask) {
        Some(tag) => tag,
        None => NO_TAG,
    }
}

/// The list of view tags that the buffer `buf` carries: one entry for each
/// run of four bytes, in the order of the buffer.
pub open spec fn view_tags_of(buf: Seq<u8>) -> Seq<u8> {
    Seq::new(
        (buf.len() / 4) as nat,
        |k: int| view_tag(le_u32(buf[4 * k], buf[4 * k + 1], buf[4 * k + 2], buf[4 * k + 3])),
    )
}

/// Decodes a buffer of little-endian 32-bit tag masks, one per view, into the
/// list of the views' tags. A view whose mask names no single tag keeps its
/// place in the list and gets `NO_TAG`.
pub fn decode_view_tags(buf: &[u8]) -> (list: Vec<u8>)
    requires
        buf@.len() % 4 == 0,
    ensures
        list@ == view_tags_of(buf@),
        list@.len() == buf@.len() / 4,
{
    let count: usize = buf.len() / 4;
    let mut list: Vec<u8> = Vec::new();
    let mut k: usize = 0;
    while k < count
        invariant
            k <= count,
            4 * count == buf@.len(),
            buf@.len() <= usize::MAX,
            list@.len() == k,
            forall|j: int| 0 <= j < k ==> list@[j] == view_tags_of(buf@)[j],
        decreases count - k,
    {
        let at: usize = 4 * k;
        let mask: u32 = buf[at] as u32 + 256 * (buf[at + 1] as u32) + 65536 * (buf[at + 2] as u32)
            + 16777216 * (buf[at + 3] as u32);
        let entry: u8 = match decode_single(mask) {
            Some(tag) => tag,
            None => NO_TAG,
        };
        list.push(entry);
        k = k + 1;
    }
    assert(list@ =~= view_tags_of(buf@));
    list
}

/// The mask of a single tag decodes to that tag.
pub proof fn lemma_single_of_tag_bit(tag: u8)
    requires
        is_tag(tag),
    ensures
        single_tag(tag_bit(tag)) == Some(tag),
{
    let found = choose|other: u8| is_tag(other) && tag_bit(tag) == tag_bit(other);
    lemma_tag_bit_injective(found, tag);
}

/// The mask of a single tag stands for the set of that tag alone.
pub proof fn lemma_tags_of_tag_bit(tag: u8)
    requires
        is_tag(tag),
    ensures
        tags_of(tag_bit(tag)) == set![tag],
{
    assert forall|other: u8| tags_of(tag_bit(tag)).contains(other) <==> other == tag by {
        let k: u32 = (tag - 1) as u32;
        let j: u32 = (other - 1) as u32;
        assert(k < 32 && j < 32 ==> ((((1u32 << k) >> j) & 1 == 1) <==> j == k)) by (bit_vector);
    }
    assert(tags_of(tag_bit(tag)) =~= set![tag]);
}

/// A mask names a single tag exactly when one bit is set in it: a mask with
/// no bit set, or with two or more, names none.
pub proof fn lemma_single_iff_one_bit(mask: u32)
    ensures
        tags_of(mask).finite(),
        single_tag(mask) is Some <==> tags_of(mask).len() == 1,
{
    lemma_tags_finite(mask);
    if single_tag(mask) is Some {
        let tag = single_tag(mask)->0;
        lemma_tags_of_tag_bit(tag);
    }
    if tags_of(mask).len() == 1 {
        let tag = tags_of(mask).choose();
        Set::lemma_is_singleton(tags_of(mask));
        assert(tags_of(mask).contains(tag));
        assert(tags_of(mask) =~= set![tag]);
        lemma_tags_of_tag_bit(tag);
        assert forall|other: u8| is_tag(other) implies (has_tag(mask, other) <==> has_tag(
            tag_bit(tag),
            other,
        )) by {
            assert(tags_of(mask).contains(other) <==> tags_of(tag_bit(tag)).contains(other));
        }
        lemma_bits_decide(mask, tag_bit(tag));
    }
}

/// A mask stands for at most thirty-two tags.
pub proof fn lemma_tags_finite(mask: u32)
    ensures
        tags_of(mask).finite(),
        tags_of(mask).len() <= 32,
{
    let all = Set::new(|tag: u8| 1 <= tag && tag < 33);
    lemma_tag_range(33);
    assert(tags_of(mask).subset_of(all));
    vstd::set_lib::lemma_len_subset(tags_of(mask), all);
}

/// There are `bound - 1` tags below `bound`.
proof fn lemma_tag_range(bound: u8)
    requires
        1 <= bound,
    ensures
        Set::new(|tag: u8| 1 <= tag && tag < bound).finite(),
        Set::new(|tag: u8| 1 <= tag && tag < bound).len() == bound - 1,
    decreases bound,
{
    let here = Set::new(|tag: u8| 1 <= tag && tag < bound);
    if bound == 1 {
        assert(here =~= Set::<u8>::empty());
    } else {
        let last: u8 = (bound - 1) as u8;
        let below = Set::new(|tag: u8| 1 <= tag && tag < last);
        lemma_tag_range(last);
        assert(here =~= below.insert(last));
    }
}

} // verus!
