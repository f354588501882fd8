use vstd::prelude::*;
use crate::metadata::ReleaseChannel;
use vstd::seq_lib::{to_multiset_build, to_multiset_insert};
use crate::numbers::{channel_key_spec, parse_channel_key};
use crate::text::str_eq;

verus! {

/// The text of an optional tag, empty where it is absent.
pub open spec fn tag(t: Option<String>) -> Seq<char> {
    match t {
        Some(s) => s@,
        None => Seq::empty(),
    }
}

/// A channel marked as having reached end of life.
pub open spec fn is_eol(c: ReleaseChannel) -> bool {
    tag(c.support_phase) == "eol"@
}

/// A channel that already has an SDK.
pub open spec fn has_sdk(c: ReleaseChannel) -> bool {
    tag(c.latest_sdk).len() > 0
}

/// A channel that the catalog walks.
pub open spec fn is_retained(c: ReleaseChannel, include_eol: bool) -> bool {
    has_sdk(c) && (include_eol || !is_eol(c))
}

/// The `(major, minor)` key of a channel.
pub open spec fn key_of(c: ReleaseChannel) -> (u64, u64) {
    channel_key_spec(c.channel_version@)
}

/// `a` orders at or above `b`, comparing `(major, minor)` keys.
pub open spec fn key_ge(a: (u64, u64), b: (u64, u64)) -> bool {
    a.0 > b.0 || (a.0 == b.0 && a.1 >= b.1)
}

/// The retained channels of `s`, in feed order.
pub open spec fn retained_of(s: Seq<ReleaseChannel>, include_eol: bool) -> Seq<ReleaseChannel>
    decreases s.len(),
{
    if s.len() == 0 {
        Seq::empty()
    } else if is_retained(s.last(), include_eol) {
        retained_of(s.drop_last(), include_eol).push(s.last())
    } else {
        retained_of(s.drop_last(), include_eol)
    }
}

/// Non-increasing in `(major, minor)`.
pub open spec fn sorted_by_key(s: Seq<ReleaseChannel>) -> bool {
    forall|i: int, j: int| 0 <= i < j < s.len() ==> key_ge(key_of(#[trigger] s[i]), key_of(#[trigger] s[j]))
}

/// `r` holds channels of `s`, the one at `i` being `s[idx[i]]`, and two
/// channels of one key stand in `r` in the order that they have in `s`.
pub open spec fn keeps_feed_order(r: Seq<ReleaseChannel>, s: Seq<ReleaseChannel>, idx: Seq<int>) -> bool {
    &&& idx.len() == r.len()
    &&& forall|i: int| 0 <= i < r.len() ==> 0 <= #[trigger] idx[i] < s.len() && r[i] == s[idx[i]]
    &&& forall|i: int, j: int|
        0 <= i < j < r.len() && key_of(#[trigger] r[i]) == key_of(#[trigger] r[j]) ==> idx[i] < idx[j]
}

fn is_tag(t: &Option<String>, word: &str) -> (r: bool)
    ensures
        r == (tag(*t) == word@),
{
    match t {
        Some(s) => str_eq(s.as_str(), word),
        None => {
            proof {
                if word@.len() == 0 {
                    assert(word@ =~= Seq::<char>::empty());
                }
            }
            word.unicode_len() == 0
        },
    }
}

fn channel_has_sdk(c: &ReleaseChannel) -> (r: bool)
    ensures
        r == has_sdk(*c),
{
    match &c.latest_sdk {
        Some(s) => s.as_str().unicode_len() > 0,
        None => false,
    }
}

/// Keeps the channels that have an SDK, and drops those at end of life
/// unless `include_eol` is set; then orders them newest first by
/// `(major, minor)`, keeping feed order among channels of one key.
pub fn retain_channels(channels: Vec<ReleaseChannel>, include_eol: bool) -> (r: Vec<ReleaseChannel>)
    ensures
        r@.to_multiset() == retained_of(channels@, include_eol).to_multiset(),
        sorted_by_key(r@),
        forall|i: int| 0 <= i < r.len() ==> is_retained(#[trigger] r@[i], include_eol),
        exists|idx: Seq<int>| keeps_feed_order(r@, channels@, idx),
{
    let ghost orig = channels@;
    let mut rest = channels;
    let mut out: Vec<ReleaseChannel> = Vec::new();
    let ghost mut k: int = 0;
    let ghost mut idx: Seq<int> = Seq::empty();
    while rest.len() > 0
        invariant
            0 <= k <= orig.len(),
            keeps_feed_order(out@, orig, idx),
            forall|i: int| 0 <= i < idx.len() ==> #[trigger] idx[i] < k,
            rest@ == orig.subrange(k, orig.len() as int),
            out@.to_multiset() == retained_of(orig.subrange(0, k), include_eol).to_multiset(),
            sorted_by_key(out@),
            forall|i: int| 0 <= i < out.len() ==> is_retained(#[trigger] out@[i], include_eol),
        decreases rest.len(),
    {
        let c = rest.remove(0);
        let ghost ck = k;
        proof {
            assert(orig[k] == c);
            assert(orig.subrange(0, k + 1).drop_last() =~= orig.subrange(0, k));
            assert(rest@ =~= orig.subrange(k + 1, orig.len() as int));
            k = k + 1;
        }
        let keep = channel_has_sdk(&c) && (include_eol || !is_tag(&c.support_phase, "eol"));
        if keep {
            let key = parse_channel_key(c.channel_version.as_str());
            let mut j: usize = 0;
            while j < out.len() && key_le_exec(key, parse_channel_key(out[j].channel_version.as_str()))
                invariant
                    j <= out.len(),
                    key == key_of(c),
                    forall|i: int| 0 <= i < j ==> key_ge(key_of(#[trigger] out@[i]), key),
                decreases out.len() - j,
            {
                j = j + 1;
            }
            let ghost before = out@;
            out.insert(j, c);
            proof {
                assert(out@ == before.insert(j as int, c));
                to_multiset_insert(before, j as int, c);
                to_multiset_build(retained_of(orig.subrange(0, k - 1), include_eol), c);
                lemma_sorted_after_insert(before, j as int, c);
                lemma_feed_order_after_insert(before, orig, idx, j as int, c, ck);
                idx = idx.insert(j as int, ck);
                assert forall|i: int| 0 <= i < out.len() implies is_retained(#[trigger] out@[i], include_eol) by {
                    if i > j {
                        assert(out@[i] == before[i - 1]);
                    } else if i < j {
                        assert(out@[i] == before[i]);
                    }
                }
            }
        }
    }
    proof {
        assert(orig.subrange(0, k) =~= orig);
        assert(keeps_feed_order(out@, channels@, idx));
    }
    out
}

proof fn lemma_feed_order_after_insert(
    s: Seq<ReleaseChannel>,
    orig: Seq<ReleaseChannel>,
    idx: Seq<int>,
    j: int,
    c: ReleaseChannel,
    ck: int,
)
    requires
        0 <= j <= s.len(),
        0 <= ck < orig.len(),
        orig[ck] == c,
        keeps_feed_order(s, orig, idx),
        forall|i: int| 0 <= i < idx.len() ==> #[trigger] idx[i] < ck,
        j < s.len() ==> !key_ge(key_of(s[j]), key_of(c)),
        sorted_by_key(s),
    ensures
        keeps_feed_order(s.insert(j, c), orig, idx.insert(j, ck)),
        forall|i: int| 0 <= i < idx.insert(j, ck).len() ==> #[trigger] idx.insert(j, ck)[i] < ck + 1,
{
    let t = s.insert(j, c);
    let n = idx.insert(j, ck);
    assert forall|i: int| 0 <= i < t.len() implies 0 <= #[trigger] n[i] < orig.len() && t[i] == orig[n[i]] by {
        if i < j {
            assert(n[i] == idx[i] && t[i] == s[i]);
        } else if i > j {
            assert(n[i] == idx[i - 1] && t[i] == s[i - 1]);
        }
    }
    assert forall|a: int, b: int| 0 <= a < b < t.len() && key_of(#[trigger] t[a]) == key_of(#[trigger] t[b]) implies n[a] < n[b] by {
        if b == j {
            assert(n[a] == idx[a]);
        } else if a == j {
            assert(t[b] == s[b - 1]);
            assert(key_ge(key_of(s[j]), key_of(s[b - 1])));
        } else {
            let a0 = if a < j { a } else { a - 1 };
            let b0 = if b < j { b } else { b - 1 };
            assert(t[a] == s[a0] && n[a] == idx[a0]);
            assert(t[b] == s[b0] && n[b] == idx[b0]);
        }
    }
    assert forall|i: int| 0 <= i < n.len() implies #[trigger] n[i] < ck + 1 by {
        if i < j {
            assert(n[i] == idx[i]);
        } else if i > j {
            assert(n[i] == idx[i - 1]);
        }
    }
}

fn key_le_exec(a: (u64, u64), b: (u64, u64)) -> (r: bool)
    ensures
        r == key_ge(b, a),
{
    b.0 > a.0 || (b.0 == a.0 && b.1 >= a.1)
}

proof fn lemma_sorted_after_insert(s: Seq<ReleaseChannel>, j: int, c: ReleaseChannel)
    requires
        0 <= j <= s.len(),
        sorted_by_key(s),
        forall|i: int| 0 <= i < j ==> key_ge(key_of(#[trigger] s[i]), key_of(c)),
        j < s.len() ==> !key_ge(key_of(s[j]), key_of(c)),
    ensures
        sorted_by_key(s.insert(j, c)),
{
    let t = s.insert(j, c);
    assert forall|a: int, b: int| 0 <= a < b < t.len() implies key_ge(key_of(#[trigger] t[a]), key_of(#[trigger] t[b])) by {
        if b == j {
            assert(t[a] == s[a]);
        } else if a == j {
            assert(t[b] == s[b - 1]);
            assert(key_ge(key_of(s[j]), key_of(s[b - 1])));
        } else {
            let a0 = if a < j { a } else { a - 1 };
            let b0 = if b < j { b } else { b - 1 };
            assert(t[a] == s[a0]);
            assert(t[b] == s[b0]);
        }
    }
}

proof fn lemma_retained_contains(s: Seq<ReleaseChannel>, include_eol: bool, c: ReleaseChannel)
    ensures
        retained_of(s, include_eol).contains(c) <==> s.contains(c) && is_retained(c, include_eol),
    decreases s.len(),
{
    if s.len() > 0 {
        let t = s.drop_last();
        lemma_retained_contains(t, include_eol, c);
        let rt = retained_of(t, include_eol);
        if s.contains(c) && c != s.last() {
            let k = choose|k: int| 0 <= k < s.len() && s[k] == c;
            assert(t[k] == c);
        }
        if t.contains(c) {
            let k = choose|k: int| 0 <= k < t.len() && t[k] == c;
            assert(s[k] == c);
        }
        if is_retained(s.last(), include_eol) {
            if rt.push(s.last()).contains(c) && c != s.last() {
                let k = choose|k: int| 0 <= k < rt.len() + 1 && rt.push(s.last())[k] == c;
                assert(rt[k] == c);
            }
            if rt.contains(c) {
                let k = choose|k: int| 0 <= k < rt.len() && rt[k] == c;
                assert(rt.push(s.last())[k] == c);
            }
            assert(rt.push(s.last())[rt.len() as int] == s.last());
        }
        assert(s[s.len() - 1] == s.last());
    }
}

/// A channel at end of life that has an SDK is among the channels that the
/// catalog walks exactly when end-of-life channels are included.
pub proof fn lemma_eol_channel_walked_iff_included(
    channels: Seq<ReleaseChannel>,
    include_eol: bool,
    walked: Seq<ReleaseChannel>,
    c: ReleaseChannel,
)
    requires
        walked.to_multiset() == retained_of(channels, include_eol).to_multiset(),
        channels.contains(c),
        has_sdk(c),
        is_eol(c),
    ensures
        walked.contains(c) <==> include_eol,
{
    lemma_retained_contains(channels, include_eol, c);
    vstd::seq_lib::to_multiset_contains(walked, c);
    vstd::seq_lib::to_multiset_contains(retained_of(channels, include_eol), c);
    assert(walked.to_multiset().count(c) == retained_of(channels, include_eol).to_multiset().count(c));
}

} // verus!
