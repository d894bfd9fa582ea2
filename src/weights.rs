use vstd::prelude::*;

verus! {

/// One fact of a batch: the relation it belongs to, the engine's encoding of
/// its value, and its signed multiplicity.
pub struct WeightedFact {
    pub relid: usize,
    pub value: Vec<u8>,
    pub weight: i64,
}

/// The net change to one fact that a transaction hands to the engine.
pub struct NetUpdate {
    pub relid: usize,
    pub value: Vec<u8>,
    pub weight: i128,
}

/// A record that does not fit the shape of the relation it is addressed to.
#[derive(Debug, Clone, Copy, PartialEq, Eq)]
pub struct ConversionError {
    pub relid: usize,
}

/// The sum of the weights of every occurrence of fact `(relid, value)` in `s`.
pub open spec fn net_weight(s: Seq<WeightedFact>, relid: usize, value: Seq<u8>) -> int
    decreases s.len(),
{
    if s.len() == 0 {
        0
    } else {
        let f = s.last();
        net_weight(s.drop_last(), relid, value) + if f.relid == relid && f.value@ == value {
            f.weight as int
        } else {
            0
        }
    }
}

/// `ups` holds the net weight of each fact of `facts` whose net weight is not
/// zero, once each, and nothing else.
pub open spec fn is_net_of(ups: Seq<NetUpdate>, facts: Seq<WeightedFact>) -> bool {
    &&& forall|i: int|
        0 <= i < ups.len() ==> #[trigger] ups[i].weight != 0 && ups[i].weight == net_weight(
            facts,
            ups[i].relid,
            ups[i].value@,
        )
    &&& forall|i: int, j: int|
        0 <= i < j < ups.len() ==> (#[trigger] ups[i].relid != #[trigger] ups[j].relid || ups[i].value@
            != ups[j].value@)
    &&& forall|relid: usize, value: Seq<u8>|
        #[trigger] net_weight(facts, relid, value) != 0 ==> exists|i: int|
            0 <= i < ups.len() && ups[i].relid == relid && ups[i].value@ == value
}

/// The facts held by a sequence of conversion results that all succeeded.
pub open spec fn converted_facts(s: Seq<Result<WeightedFact, ConversionError>>) -> Seq<WeightedFact> {
    s.map_values(|r: Result<WeightedFact, ConversionError>| r->Ok_0)
}

/// A fact whose weights in a batch cancel out is handed to no transaction:
/// no update of the batch's net updates names it.
pub proof fn lemma_zero_net_suppressed(ups: Seq<NetUpdate>, facts: Seq<WeightedFact>, relid: usize, value: Seq<u8>)
    requires
        is_net_of(ups, facts),
        net_weight(facts, relid, value) == 0,
    ensures
        forall|i: int| 0 <= i < ups.len() ==> !(ups[i].relid == relid && #[trigger] ups[i].value@ == value),
{
    assert forall|i: int| 0 <= i < ups.len() implies !(ups[i].relid == relid && #[trigger] ups[i].value@ == value) by {
        assert(ups[i].weight != 0);
    };
}

/// Each weight is an `i64`, so a net weight is at most `len * 2^63` in size.
proof fn lemma_net_bound(s: Seq<WeightedFact>, relid: usize, value: Seq<u8>)
    ensures
        -(s.len() * 0x8000_0000_0000_0000) <= net_weight(s, relid, value) <= s.len() * 0x8000_0000_0000_0000,
    decreases s.len(),
{
    if s.len() > 0 {
        lemma_net_bound(s.drop_last(), relid, value);
    }
}

fn same_bytes(a: &Vec<u8>, b: &Vec<u8>) -> (r: bool)
    ensures
        r == (a@ == b@),
{
    if a.len() != b.len() {
        return false;
    }
    let mut i: usize = 0;
    while i < a.len()
        invariant
            a@.len() == b@.len(),
            i <= a@.len(),
            forall|k: int| 0 <= k < i ==> a@[k] == b@[k],
        decreases a.len() - i,
    {
        if a[i] != b[i] {
            return false;
        }
        i += 1;
    }
    assert(a@ =~= b@);
    true
}

fn copy_bytes(a: &Vec<u8>) -> (r: Vec<u8>)
    ensures
        r@ == a@,
{
    let mut r: Vec<u8> = Vec::new();
    let mut i: usize = 0;
    while i < a.len()
        invariant
            i <= a@.len(),
            r@ == a@.subrange(0, i as int),
        decreases a.len() - i,
    {
        r.push(a[i]);
        i += 1;
        assert(r@ =~= a@.subrange(0, i as int));
    }
    assert(a@.subrange(0, i as int) =~= a@);
    r
}

fn find_key(keys: &Vec<(usize, Vec<u8>)>, relid: usize, value: &Vec<u8>) -> (r: Option<usize>)
    ensures
        match r {
            Some(j) => j < keys@.len() && keys@[j as int].0 == relid && keys@[j as int].1@ == value@,
            None => forall|j: int|
                0 <= j < keys@.len() ==> !(keys@[j].0 == relid && keys@[j].1@ == value@),
        },
{
    let mut j: usize = 0;
    while j < keys.len()
        invariant
            j <= keys@.len(),
            forall|k: int| 0 <= k < j ==> !(keys@[k].0 == relid && keys@[k].1@ == value@),
        decreases keys.len() - j,
    {
        if keys[j].0 == relid && same_bytes(&keys[j].1, value) {
            return Some(j);
        }
        j += 1;
    }
    None
}

/// Sums the weights of equal facts and drops those whose sum is zero: the
/// updates that one transaction applies for `facts`.
pub fn aggregate(facts: &Vec<WeightedFact>) -> (r: Vec<NetUpdate>)
    ensures
        is_net_of(r@, facts@),
{
    let mut keys: Vec<(usize, Vec<u8>)> = Vec::new();
    let mut ws: Vec<i128> = Vec::new();
    let mut i: usize = 0;
    while i < facts.len()
        invariant
            i <= facts@.len(),
            keys@.len() == ws@.len(),
            forall|j: int|
                0 <= j < keys@.len() ==> #[trigger] ws@[j] == net_weight(
                    facts@.subrange(0, i as int),
                    keys@[j].0,
                    keys@[j].1@,
                ),
            forall|j: int, k: int|
                0 <= j < k < keys@.len() ==> (#[trigger] keys@[j].0 != #[trigger] keys@[k].0
                    || keys@[j].1@ != keys@[k].1@),
            forall|relid: usize, value: Seq<u8>|
                #[trigger] net_weight(facts@.subrange(0, i as int), relid, value) != 0 ==> exists|j: int|
                    0 <= j < keys@.len() && keys@[j].0 == relid && keys@[j].1@ == value,
        decreases facts.len() - i,
    {
        let f = &facts[i];
        let ghost pre = facts@.subrange(0, i as int);
        let ghost post = facts@.subrange(0, i + 1);
        assert(post.drop_last() =~= pre);
        proof {
            lemma_net_bound(pre, f.relid, f.value@);
        }
        match find_key(&keys, f.relid, &f.value) {
            Some(j) => {
                let w = ws[j] + f.weight as i128;
                ws.set(j, w);
                assert forall|k: int| 0 <= k < keys@.len() implies #[trigger] ws@[k] == net_weight(
                    post,
                    keys@[k].0,
                    keys@[k].1@,
                ) by {
                    if k != j {
                        assert(!(keys@[k].0 == keys@[j as int].0 && keys@[k].1@ == keys@[j as int].1@));
                    }
                };
                assert forall|relid: usize, value: Seq<u8>|
                    #[trigger] net_weight(post, relid, value) != 0 implies exists|k: int|
                        0 <= k < keys@.len() && keys@[k].0 == relid && keys@[k].1@ == value by {
                    if !(relid == f.relid && value == f.value@) {
                        assert(net_weight(pre, relid, value) != 0);
                    }
                };
            },
            None => {
                assert(net_weight(pre, f.relid, f.value@) == 0) by {
                    if net_weight(pre, f.relid, f.value@) != 0 {
                        let k = choose|k: int|
                            0 <= k < keys@.len() && keys@[k].0 == f.relid && keys@[k].1@ == f.value@;
                    }
                };
                let ghost old_keys = keys@;
                keys.push((f.relid, copy_bytes(&f.value)));
                ws.push(f.weight as i128);
                assert forall|k: int| 0 <= k < keys@.len() implies #[trigger] ws@[k] == net_weight(
                    post,
                    keys@[k].0,
                    keys@[k].1@,
                ) by {
                    if k < old_keys.len() {
                        assert(keys@[k] == old_keys[k]);
                        if keys@[k].0 == f.relid && keys@[k].1@ == f.value@ {
                            assert(net_weight(pre, f.relid, f.value@) == 0);
                        }
                    }
                };
                assert forall|relid: usize, value: Seq<u8>|
                    #[trigger] net_weight(post, relid, value) != 0 implies exists|k: int|
                        0 <= k < keys@.len() && keys@[k].0 == relid && keys@[k].1@ == value by {
                    if relid == f.relid && value == f.value@ {
                        assert(keys@[old_keys.len() as int].0 == relid);
                    } else {
                        assert(net_weight(pre, relid, value) != 0);
                        let k = choose|k: int|
                            0 <= k < old_keys.len() && old_keys[k].0 == relid && old_keys[k].1@ == value;
                        assert(keys@[k] == old_keys[k]);
                    }
                };
            },
        }
        i += 1;
    }
    assert(facts@.subrange(0, i as int) =~= facts@);
    let mut r: Vec<NetUpdate> = Vec::new();
    let ghost mut src: Seq<int> = Seq::empty();
    let mut j: usize = 0;
    while j < keys.len()
        invariant
            j <= keys@.len(),
            keys@.len() == ws@.len(),
            src.len() == r@.len(),
            forall|a: int|
                0 <= a < r@.len() ==> 0 <= #[trigger] src[a] < j && r@[a].relid == keys@[src[a]].0
                    && r@[a].value@ == keys@[src[a]].1@ && r@[a].weight == ws@[src[a]] && ws@[src[a]] != 0,
            forall|a: int, b: int| 0 <= a < b < r@.len() ==> #[trigger] src[a] < #[trigger] src[b],
            forall|k: int|
                0 <= k < j && #[trigger] ws@[k] != 0 ==> exists|a: int| 0 <= a < r@.len() && src[a] == k,
        decreases keys.len() - j,
    {
        let ghost old_src = src;
        if ws[j] != 0 {
            r.push(NetUpdate { relid: keys[j].0, value: copy_bytes(&keys[j].1), weight: ws[j] });
            proof {
                src = src.push(j as int);
                assert(src[src.len() - 1] == j);
            }
        }
        assert forall|k: int| 0 <= k < j + 1 && #[trigger] ws@[k] != 0 implies exists|a: int|
            0 <= a < r@.len() && src[a] == k by {
            if k == j {
                assert(src[src.len() - 1] == k);
            } else {
                let a = choose|a: int| 0 <= a < old_src.len() && old_src[a] == k;
                assert(src[a] == k);
            }
        };
        j += 1;
    }
    assert forall|relid: usize, value: Seq<u8>|
        #[trigger] net_weight(facts@, relid, value) != 0 implies exists|a: int|
            0 <= a < r@.len() && r@[a].relid == relid && r@[a].value@ == value by {
        let k = choose|k: int| 0 <= k < keys@.len() && keys@[k].0 == relid && keys@[k].1@ == value;
        assert(ws@[k] != 0);
        let a = choose|a: int| 0 <= a < r@.len() && src[a] == k;
        assert(r@[a].relid == relid);
    };
    assert forall|a: int, b: int|
        0 <= a < b < r@.len() implies (#[trigger] r@[a].relid != #[trigger] r@[b].relid
            || r@[a].value@ != r@[b].value@) by {
        assert(src[a] < src[b]);
    };
    assert forall|a: int| 0 <= a < r@.len() implies #[trigger] r@[a].weight != 0 && r@[a].weight == net_weight(
        facts@,
        r@[a].relid,
        r@[a].value@,
    ) by {
        assert(ws@[src[a]] == net_weight(facts@, keys@[src[a]].0, keys@[src[a]].1@));
    };
    r
}

} // verus!
