use hmac::{Hmac, Mac};
use sha2::Sha256;
use vstd::prelude::*;
use vstd::string::StringSliceAdditionalSpecFns;

verus! {

/// The HMAC-SHA256 tag of `message` under `key`.
pub uninterp spec fn hmac_sha256(key: Seq<u8>, message: Seq<u8>) -> Seq<u8>;

/// Computes the HMAC-SHA256 tag of `message` under `key` with the `hmac` and
/// `sha2` crates (`Hmac::<Sha256>::new_from_slice`, `update`, `finalize`).
///
/// Claims that the result is the tag named `hmac_sha256`, and that it is
/// always `Ok`: `Mac::new_from_slice` goes through `CoreWrapper` (digest) to
/// `HmacCore::new_from_slice` (hmac), which takes a key of any length and
/// returns `Ok`.
#[verifier::external_body]
fn hmac_sha256_tag(key: &[u8], message: &[u8]) -> (tag: Result<Vec<u8>, String>)
    ensures
        tag is Ok,
        tag matches Ok(t) ==> t@ == hmac_sha256(key@, message@),
{
    let mut mac = Hmac::<Sha256>::new_from_slice(key).map_err(|e| e.to_string())?;
    mac.update(message);
    Ok(mac.finalize().into_bytes().to_vec())
}

/// The lowercase hexadecimal digit for `n` (below 16).
pub open spec fn hex_digit(n: int) -> char {
    seq!['0', '1', '2', '3', '4', '5', '6', '7', '8', '9', 'a', 'b', 'c', 'd', 'e', 'f'][n]
}

/// `bytes` in lowercase hexadecimal, two digits per byte, high digit first.
pub open spec fn lower_hex(bytes: Seq<u8>) -> Seq<char>
    decreases bytes.len(),
{
    if bytes.len() == 0 {
        seq![]
    } else {
        lower_hex(bytes.drop_last()) + seq![hex_digit(bytes.last() as int / 16), hex_digit(bytes.last() as int % 16)]
    }
}

/// Encodes `data` in lowercase hexadecimal with `hex::encode`.
///
/// Claims what the `hex` documentation and source show: each byte becomes
/// two lowercase digits, high digit first, in the order of the bytes.
#[verifier::external_body]
fn hex_encode(data: &[u8]) -> (text: String)
    ensures
        text@ == lower_hex(data@),
{
    hex::encode(data)
}

/// The signature header value that `tag` stands for: `sha256=` and the tag
/// in lowercase hexadecimal.
pub open spec fn signature_text(tag: Seq<u8>) -> Seq<char> {
    "sha256="@ + lower_hex(tag)
}

/// Whether `signature` is the signature header value for the tag `tag`.
pub fn signature_matches(tag: &[u8], signature: &str) -> (valid: bool)
    ensures
        valid == (signature@ == signature_text(tag@)),
{
    let mut expected = String::from_str("sha256=");
    let digits = hex_encode(tag);
    expected.append(digits.as_str());
    let given = String::from_str(signature);
    expected == given
}

/// Whether `signature` is the HMAC-SHA256 signature of `payload` under
/// `secret`, written as `sha256=` and the tag in lowercase hexadecimal.
pub fn is_signature_valid(payload: &str, signature: &str, secret: &str) -> (valid: Result<bool, String>)
    ensures
        valid == Ok::<bool, String>(
            signature@ == signature_text(hmac_sha256(secret.spec_bytes(), payload.spec_bytes())),
        ),
{
    let tag = match hmac_sha256_tag(secret.as_bytes(), payload.as_bytes()) {
        Ok(t) => t,
        Err(e) => return Err(e),
    };
    Ok(signature_matches(tag.as_slice(), signature))
}


/// A process table: each entry is a process id and the id of its parent,
/// if it has one.
pub type ProcessTable = Vec<(usize, Option<usize>)>;

/// The ids of the processes whose parent is `parent`, in table order.
pub open spec fn children(table: Seq<(usize, Option<usize>)>, parent: usize) -> Seq<usize>
    decreases table.len(),
{
    if table.len() == 0 {
        seq![]
    } else {
        children(table.drop_last(), parent) + (if table.last().1 == Some(parent) {
            seq![table.last().0]
        } else {
            seq![]
        })
    }
}

/// The children of each process of `level`, in the order of `level`.
pub open spec fn next_level(table: Seq<(usize, Option<usize>)>, level: Seq<usize>) -> Seq<usize>
    decreases level.len(),
{
    if level.len() == 0 {
        seq![]
    } else {
        next_level(table, level.drop_last()) + children(table, level.last())
    }
}

/// The processes `depth` generations below `root`.
pub open spec fn generation(table: Seq<(usize, Option<usize>)>, root: usize, depth: nat) -> Seq<usize>
    decreases depth,
{
    if depth == 0 {
        seq![root]
    } else {
        next_level(table, generation(table, root, (depth - 1) as nat))
    }
}

/// The processes of generations 1 to `depth` below `root`, generation by
/// generation.
pub open spec fn descendants_within(table: Seq<(usize, Option<usize>)>, root: usize, depth: nat) -> Seq<usize>
    decreases depth,
{
    if depth == 0 {
        seq![]
    } else {
        descendants_within(table, root, (depth - 1) as nat) + generation(table, root, depth)
    }
}

/// A generation without processes has none below it.
pub proof fn lemma_empty_generation_stays_empty(
    table: Seq<(usize, Option<usize>)>,
    root: usize,
    depth: nat,
    later: nat,
)
    requires
        generation(table, root, depth).len() == 0,
        depth <= later,
    ensures
        generation(table, root, later).len() == 0,
        descendants_within(table, root, later) == descendants_within(table, root, depth),
    decreases later,
{
    if later > depth {
        lemma_empty_generation_stays_empty(table, root, depth, (later - 1) as nat);
        assert(descendants_within(table, root, later) =~= descendants_within(table, root, (later - 1) as nat));
    }
}

/// No process id occurs twice in `table`.
pub open spec fn ids_distinct(table: Seq<(usize, Option<usize>)>) -> bool {
    forall|i: int, j: int| 0 <= i < j < table.len() ==> table[i].0 != table[j].0
}

proof fn lemma_children_contains(table: Seq<(usize, Option<usize>)>, parent: usize, pid: usize)
    ensures
        children(table, parent).contains(pid) <==> exists|i: int|
            0 <= i < table.len() && table[i].0 == pid && table[i].1 == Some(parent),
    decreases table.len(),
{
    if table.len() > 0 {
        let rest = table.drop_last();
        lemma_children_contains(rest, parent, pid);
        let last_part: Seq<usize> = if table.last().1 == Some(parent) {
            seq![table.last().0]
        } else {
            seq![]
        };
        assert(children(table, parent) == children(rest, parent) + last_part);
        if children(table, parent).contains(pid) {
            let k = choose|k: int| 0 <= k < children(table, parent).len() && children(table, parent)[k] == pid;
            if k < children(rest, parent).len() {
                assert(children(rest, parent)[k] == pid);
                let i = choose|i: int| 0 <= i < rest.len() && rest[i].0 == pid && rest[i].1 == Some(parent);
                assert(table[i] == rest[i]);
            } else {
                assert(table[table.len() - 1].0 == pid);
            }
        }
        if exists|i: int| 0 <= i < table.len() && table[i].0 == pid && table[i].1 == Some(parent) {
            let i = choose|i: int| 0 <= i < table.len() && table[i].0 == pid && table[i].1 == Some(parent);
            if i < rest.len() {
                assert(rest[i] == table[i]);
                assert(children(rest, parent).contains(pid));
                let k = choose|k: int| 0 <= k < children(rest, parent).len() && children(rest, parent)[k] == pid;
                assert(children(table, parent)[k] == pid);
            } else {
                assert(children(table, parent)[children(rest, parent).len() as int] == pid);
            }
        }
    }
}

proof fn lemma_next_level_contains(table: Seq<(usize, Option<usize>)>, level: Seq<usize>, pid: usize)
    ensures
        next_level(table, level).contains(pid) <==> exists|p: usize|
            level.contains(p) && #[trigger] children(table, p).contains(pid),
    decreases level.len(),
{
    if level.len() > 0 {
        let rest = level.drop_last();
        lemma_next_level_contains(table, rest, pid);
        let a = next_level(table, rest);
        let b = children(table, level.last());
        assert(next_level(table, level) == a + b);
        if next_level(table, level).contains(pid) {
            let k = choose|k: int| 0 <= k < (a + b).len() && (a + b)[k] == pid;
            if k < a.len() {
                assert(a[k] == pid);
                let p = choose|p: usize| rest.contains(p) && #[trigger] children(table, p).contains(pid);
                let m = choose|m: int| 0 <= m < rest.len() && rest[m] == p;
                assert(level[m] == p);
                assert(level.contains(p) && children(table, p).contains(pid));
            } else {
                assert(b[k - a.len()] == pid);
                assert(level[level.len() - 1] == level.last());
                assert(level.contains(level.last()) && children(table, level.last()).contains(pid));
            }
        }
        if exists|p: usize| level.contains(p) && #[trigger] children(table, p).contains(pid) {
            let p = choose|p: usize| level.contains(p) && #[trigger] children(table, p).contains(pid);
            let m = choose|m: int| 0 <= m < level.len() && level[m] == p;
            let k = choose|k: int| 0 <= k < children(table, p).len() && children(table, p)[k] == pid;
            if m < rest.len() {
                assert(rest[m] == p);
                assert(a.contains(pid));
                let q = choose|q: int| 0 <= q < a.len() && a[q] == pid;
                assert((a + b)[q] == pid);
            } else {
                assert((a + b)[a.len() + k] == pid);
            }
        }
    }
}

/// A chain of table entries below `root`: the first names `root` as its
/// parent, and each later one names the process of the one before it.
pub open spec fn is_entry_chain(table: Seq<(usize, Option<usize>)>, root: usize, chain: Seq<int>) -> bool {
    &&& forall|m: int| 0 <= m < chain.len() ==> 0 <= #[trigger] chain[m] < table.len()
    &&& chain.len() > 0 ==> table[chain[0]].1 == Some(root)
    &&& forall|m: int| 0 < m < chain.len() ==> table[#[trigger] chain[m]].1 == Some(table[chain[m - 1]].0)
}

/// The process of an entry whose parent lies `k` generations below `root`
/// lies `k + 1` generations below it.
proof fn lemma_child_in_next_generation(table: Seq<(usize, Option<usize>)>, root: usize, k: nat, i: int, parent: usize)
    requires
        0 <= i < table.len(),
        table[i].1 == Some(parent),
        generation(table, root, k).contains(parent),
    ensures
        generation(table, root, k + 1).contains(table[i].0),
{
    lemma_children_contains(table, parent, table[i].0);
    assert(children(table, parent).contains(table[i].0));
    lemma_next_level_contains(table, generation(table, root, k), table[i].0);
    assert(generation(table, root, k + 1) == next_level(table, generation(table, root, k)));
}

/// A process `k` generations below `root` (`k >= 1`) ends a chain of `k`
/// entries below `root`, whose `m`-th entry's process lies `m + 1`
/// generations below `root`.
proof fn lemma_chain_of_generation(table: Seq<(usize, Option<usize>)>, root: usize, k: nat, pid: usize) -> (chain:
    Seq<int>)
    requires
        k >= 1,
        generation(table, root, k).contains(pid),
    ensures
        is_entry_chain(table, root, chain),
        chain.len() == k,
        table[chain[k - 1]].0 == pid,
        forall|m: int| 0 <= m < k ==> generation(table, root, (m + 1) as nat).contains(#[trigger] table[chain[m]].0),
    decreases k,
{
    let prev = generation(table, root, (k - 1) as nat);
    assert(generation(table, root, k) == next_level(table, prev));
    lemma_next_level_contains(table, prev, pid);
    let parent = choose|p: usize| prev.contains(p) && #[trigger] children(table, p).contains(pid);
    lemma_children_contains(table, parent, pid);
    let i = choose|i: int| 0 <= i < table.len() && table[i].0 == pid && table[i].1 == Some(parent);
    if k == 1 {
        assert(prev == seq![root]);
        let j = choose|j: int| 0 <= j < prev.len() && prev[j] == parent;
        assert(parent == root);
        let chain = seq![i];
        assert(generation(table, root, 1).contains(table[chain[0]].0));
        chain
    } else {
        let before = lemma_chain_of_generation(table, root, (k - 1) as nat, parent);
        let chain = before.push(i);
        assert forall|m: int| 0 <= m < chain.len() implies 0 <= #[trigger] chain[m] < table.len() by {
            if m < before.len() {
                assert(chain[m] == before[m]);
            }
        }
        assert forall|m: int| 0 < m < chain.len() implies table[#[trigger] chain[m]].1 == Some(
            table[chain[m - 1]].0,
        ) by {
            if m < before.len() {
                assert(chain[m] == before[m] && chain[m - 1] == before[m - 1]);
            } else {
                assert(chain[m - 1] == before[m - 1]);
            }
        }
        assert forall|m: int| 0 <= m < k implies generation(table, root, (m + 1) as nat).contains(
            #[trigger] table[chain[m]].0,
        ) by {
            if m < before.len() {
                assert(chain[m] == before[m]);
            }
        }
        chain
    }
}

/// Going once round a loop of entries `chain[a..b]` (with `chain[a] ==
/// chain[b]`) from the process `y` of `chain[b - 1]` leads back to `y`
/// `b - a` generations further down.
proof fn lemma_round_the_loop(
    table: Seq<(usize, Option<usize>)>,
    root: usize,
    chain: Seq<int>,
    a: int,
    b: int,
    k: nat,
    t: int,
)
    requires
        is_entry_chain(table, root, chain),
        0 <= a < b < chain.len(),
        chain[a] == chain[b],
        generation(table, root, k).contains(table[chain[b - 1]].0),
        0 <= t < b - a,
    ensures
        generation(table, root, (k + 1 + t) as nat).contains(table[chain[a + t]].0),
    decreases t,
{
    if t == 0 {
        assert(table[chain[b]].1 == Some(table[chain[b - 1]].0));
        lemma_child_in_next_generation(table, root, k, chain[a], table[chain[b - 1]].0);
    } else {
        lemma_round_the_loop(table, root, chain, a, b, k, t - 1);
        assert(table[chain[a + t]].1 == Some(table[chain[a + t - 1]].0));
        lemma_child_in_next_generation(table, root, (k + t) as nat, chain[a + t], table[chain[a + t - 1]].0);
        assert((k + t + 1) as nat == (k + 1 + t) as nat);
    }
}

/// Around a loop the process `y` of `chain[b - 1]` comes back every `b - a`
/// generations.
proof fn lemma_loop_repeats(
    table: Seq<(usize, Option<usize>)>,
    root: usize,
    chain: Seq<int>,
    a: int,
    b: int,
    s: nat,
)
    requires
        is_entry_chain(table, root, chain),
        0 <= a < b < chain.len(),
        chain[a] == chain[b],
        generation(table, root, b as nat).contains(table[chain[b - 1]].0),
    ensures
        generation(table, root, (b + s * (b - a)) as nat).contains(table[chain[b - 1]].0),
    decreases s,
{
    if s == 0 {
        assert(b + s * (b - a) == b) by (nonlinear_arith)
            requires
                s == 0,
        ;
    } else {
        lemma_loop_repeats(table, root, chain, a, b, (s - 1) as nat);
        let k = (b + (s - 1) * (b - a)) as nat;
        assert(b + (s - 1) * (b - a) >= 0) by (nonlinear_arith)
            requires
                s >= 1,
                b > a,
                b >= 0,
        ;
        lemma_round_the_loop(table, root, chain, a, b, k, b - a - 1);
        assert(a + (b - a - 1) == b - 1);
        assert(k + 1 + (b - a - 1) == b + s * (b - a)) by (nonlinear_arith)
            requires
                k == b + (s - 1) * (b - a),
        ;
    }
}

/// When the search below `root` ends (some generation is empty), it ends
/// within `table.len() + 1` generations: that generation is empty, and the
/// processes of the first `table.len() + 1` generations are all those below
/// `root`. (A non-empty generation `table.len() + 1` holds a chain of more
/// entries than the table has, so an entry repeats and the search goes round
/// that loop for ever.)
pub proof fn lemma_search_ends_within_table(table: Seq<(usize, Option<usize>)>, root: usize, depth: nat)
    requires
        generation(table, root, depth).len() == 0,
    ensures
        generation(table, root, (table.len() + 1) as nat).len() == 0,
        descendants_within(table, root, depth) == descendants_within(table, root, (table.len() + 1) as nat),
{
    let n = table.len();
    let last = (n + 1) as nat;
    if generation(table, root, last).len() > 0 {
        let x = generation(table, root, last)[0];
        assert(generation(table, root, last).contains(x));
        let chain = lemma_chain_of_generation(table, root, last, x);
        let indices = vstd::set_lib::set_int_range(0, n as int);
        vstd::set_lib::lemma_int_range(0, n as int);
        assert(chain.to_set().subset_of(indices));
        vstd::set_lib::lemma_len_subset(chain.to_set(), indices);
        if chain.no_duplicates() {
            chain.unique_seq_to_set();
            assert(false);
        }
        let (i, j) = choose|i: int, j: int|
            0 <= i < chain.len() && 0 <= j < chain.len() && i != j && chain[i] == chain[j];
        let (a, b) = if i < j { (i, j) } else { (j, i) };
        assert(generation(table, root, ((b - 1) + 1) as nat).contains(table[chain[b - 1]].0));
        lemma_loop_repeats(table, root, chain, a, b, depth);
        assert(b + depth * (b - a) >= depth) by (nonlinear_arith)
            requires
                b - a >= 1,
                b >= 0,
        ;
        assert(generation(table, root, (b + depth * (b - a)) as nat).len() > 0);
        if depth <= (b + depth * (b - a)) as nat {
            lemma_empty_generation_stays_empty(table, root, depth, (b + depth * (b - a)) as nat);
        }
        assert(false);
    }
    if depth <= last {
        lemma_empty_generation_stays_empty(table, root, depth, last);
    } else {
        lemma_empty_generation_stays_empty(table, root, last, depth);
    }
}

/// A process lies within the first `depth` generations below `root` exactly
/// when it lies in one of the generations 1 to `depth`.
proof fn lemma_descendants_within_contains(table: Seq<(usize, Option<usize>)>, root: usize, depth: nat, pid: usize)
    ensures
        descendants_within(table, root, depth).contains(pid) <==> exists|k: nat|
            1 <= k <= depth && #[trigger] generation(table, root, k).contains(pid),
    decreases depth,
{
    if depth > 0 {
        lemma_descendants_within_contains(table, root, (depth - 1) as nat, pid);
        let a = descendants_within(table, root, (depth - 1) as nat);
        let b = generation(table, root, depth);
        assert(descendants_within(table, root, depth) == a + b);
        if (a + b).contains(pid) {
            let j = choose|j: int| 0 <= j < (a + b).len() && (a + b)[j] == pid;
            if j < a.len() {
                assert(a[j] == pid);
            } else {
                assert(b[j - a.len()] == pid);
                assert(b.contains(pid));
            }
        }
        if exists|k: nat| 1 <= k <= depth && #[trigger] generation(table, root, k).contains(pid) {
            let k = choose|k: nat| 1 <= k <= depth && #[trigger] generation(table, root, k).contains(pid);
            if k < depth {
                assert(a.contains(pid));
                let j = choose|j: int| 0 <= j < a.len() && a[j] == pid;
                assert((a + b)[j] == pid);
            } else {
                let j = choose|j: int| 0 <= j < b.len() && b[j] == pid;
                assert((a + b)[a.len() + j] == pid);
            }
        }
    }
}

/// When the search below `root` ends, what it finds is exactly what lies
/// below `root`: every child of `root` is found; every child of a found
/// process is found; and every found process is the child of `root` or of a
/// found process.
pub proof fn lemma_descendants_are_closed(table: Seq<(usize, Option<usize>)>, root: usize)
    requires
        search_ends(table, root),
    ensures
        ({
            let found = descendants_within(table, root, (table.len() + 1) as nat);
            &&& forall|i: int|
                0 <= i < table.len() && #[trigger] table[i].1 == Some(root) ==> found.contains(table[i].0)
            &&& forall|i: int, parent: usize|
                #![trigger table[i], found.contains(parent)]
                0 <= i < table.len() && table[i].1 == Some(parent) && found.contains(parent) ==> found.contains(
                    table[i].0,
                )
            &&& forall|pid: usize|
                #[trigger] found.contains(pid) ==> exists|i: int|
                    0 <= i < table.len() && table[i].0 == pid && (table[i].1 == Some(root) || (table[i].1 is Some
                        && found.contains(table[i].1->0)))
        }),
{
    let n = table.len();
    let last = (n + 1) as nat;
    let found = descendants_within(table, root, last);
    let d = choose|depth: nat| generation(table, root, depth).len() == 0;
    lemma_search_ends_within_table(table, root, d);
    assert(generation(table, root, 0) == seq![root]);
    assert(generation(table, root, 0)[0] == root);
    assert forall|i: int| 0 <= i < table.len() && #[trigger] table[i].1 == Some(root) implies found.contains(
        table[i].0,
    ) by {
        lemma_child_in_next_generation(table, root, 0, i, root);
        lemma_descendants_within_contains(table, root, last, table[i].0);
        assert(generation(table, root, 1).contains(table[i].0));
    }
    assert forall|i: int, parent: usize|
        #![trigger table[i], found.contains(parent)]
        0 <= i < table.len() && table[i].1 == Some(parent) && found.contains(parent) implies found.contains(
        table[i].0,
    ) by {
        lemma_descendants_within_contains(table, root, last, parent);
        let k = choose|k: nat| 1 <= k <= last && #[trigger] generation(table, root, k).contains(parent);
        lemma_child_in_next_generation(table, root, k, i, parent);
        let pid = table[i].0;
        assert(generation(table, root, k + 1).contains(pid));
        if k + 1 > last {
            lemma_empty_generation_stays_empty(table, root, last, (k + 1) as nat);
        }
        lemma_descendants_within_contains(table, root, last, pid);
        assert(generation(table, root, (k + 1) as nat).contains(pid));
    }
    assert forall|pid: usize| #[trigger] found.contains(pid) implies exists|i: int|
        0 <= i < table.len() && table[i].0 == pid && (table[i].1 == Some(root) || (table[i].1 is Some && found.contains(
            table[i].1->0,
        ))) by {
        lemma_descendants_within_contains(table, root, last, pid);
        let k = choose|k: nat| 1 <= k <= last && #[trigger] generation(table, root, k).contains(pid);
        let prev = generation(table, root, (k - 1) as nat);
        assert(generation(table, root, k) == next_level(table, prev));
        lemma_next_level_contains(table, prev, pid);
        let parent = choose|p: usize| prev.contains(p) && #[trigger] children(table, p).contains(pid);
        lemma_children_contains(table, parent, pid);
        let i = choose|i: int| 0 <= i < table.len() && table[i].0 == pid && table[i].1 == Some(parent);
        if k == 1 {
            let j = choose|j: int| 0 <= j < prev.len() && prev[j] == parent;
            assert(parent == root);
        } else {
            lemma_descendants_within_contains(table, root, last, parent);
            assert(generation(table, root, (k - 1) as nat).contains(parent));
        }
    }
}

/// Whether the search below `root` ends: some generation below it is empty.
pub open spec fn search_ends(table: Seq<(usize, Option<usize>)>, root: usize) -> bool {
    exists|depth: nat| generation(table, root, depth).len() == 0
}

/// The processes below `root` in `table`, generation by generation, each
/// generation in table order, up to the first empty generation.
///
/// The search must end: on a table where it never does (a loop of entries
/// below `root`), going generation by generation never stops.
pub fn collect_descendants(root: usize, table: &ProcessTable) -> (found: Vec<usize>)
    requires
        search_ends(table@, root),
    ensures
        forall|depth: nat|
            #![trigger generation(table@, root, depth)]
            generation(table@, root, depth).len() == 0 ==> found@ == descendants_within(table@, root, depth),
        found@ == descendants_within(table@, root, (table@.len() + 1) as nat),
        forall|i: int| 0 <= i < table@.len() && #[trigger] table@[i].1 == Some(root) ==> found@.contains(table@[i].0),
        forall|i: int, parent: usize|
            #![trigger table@[i], found@.contains(parent)]
            0 <= i < table@.len() && table@[i].1 == Some(parent) && found@.contains(parent) ==> found@.contains(
                table@[i].0,
            ),
        forall|pid: usize|
            #[trigger] found@.contains(pid) ==> exists|i: int|
                0 <= i < table@.len() && table@[i].0 == pid && (table@[i].1 == Some(root) || (table@[i].1 is Some
                    && found@.contains(table@[i].1->0))),
{
    let found = descendants_within_bound(root, table);
    proof {
        lemma_descendants_are_closed(table@, root);
        assert forall|depth: nat|
            #![trigger generation(table@, root, depth)]
            generation(table@, root, depth).len() == 0 implies found@ == descendants_within(table@, root, depth) by {
            lemma_search_ends_within_table(table@, root, depth);
        }
    }
    found
}

/// The processes of the first `table.len() + 1` generations below `root`;
/// by `lemma_search_ends_within_table`, all those below it when the search
/// below it ends.
fn descendants_within_bound(root: usize, table: &ProcessTable) -> (found: Vec<usize>)
    ensures
        found@ == descendants_within(table@, root, (table@.len() + 1) as nat),
{
    let n = table.len();
    let mut result: Vec<usize> = Vec::new();
    let mut last_list: Vec<usize> = Vec::new();
    last_list.push(root);
    let mut round: u128 = 0;
    assert(last_list@ =~= generation(table@, root, 0));
    while round <= n as u128 && last_list.len() > 0
        invariant
            n == table@.len(),
            round <= n + 1,
            last_list@ == generation(table@, root, round as nat),
            result@ == descendants_within(table@, root, round as nat),
        decreases n + 1 - round,
    {
        let mut new_list: Vec<usize> = Vec::new();
        let m = last_list.len();
        let mut i: usize = 0;
        while i < m
            invariant
                n == table@.len(),
                m == last_list@.len(),
                i <= m,
                new_list@ == next_level(table@, last_list@.take(i as int)),
                result@ == descendants_within(table@, root, round as nat) + new_list@,
            decreases m - i,
        {
            let parent = last_list[i];
            let mut j: usize = 0;
            while j < n
                invariant
                    n == table@.len(),
                    m == last_list@.len(),
                    i < m,
                    parent == last_list@[i as int],
                    j <= n,
                    new_list@ == next_level(table@, last_list@.take(i as int)) + children(
                        table@.take(j as int),
                        parent,
                    ),
                    result@ == descendants_within(table@, root, round as nat) + new_list@,
                decreases n - j,
            {
                let (child, child_parent) = table[j];
                assert(table@.take(j + 1).drop_last() =~= table@.take(j as int));
                let is_child = match child_parent {
                    Some(p) => p == parent,
                    None => false,
                };
                if is_child {
                    new_list.push(child);
                    result.push(child);
                }
                j = j + 1;
                assert(new_list@ =~= next_level(table@, last_list@.take(i as int)) + children(
                    table@.take(j as int),
                    parent,
                ));
                assert(result@ =~= descendants_within(table@, root, round as nat) + new_list@);
            }
            assert(table@.take(n as int) =~= table@);
            assert(last_list@.take(i + 1).drop_last() =~= last_list@.take(i as int));
            i = i + 1;
        }
        assert(last_list@.take(m as int) =~= last_list@);
        last_list = new_list;
        round = round + 1;
    }
    if last_list.len() == 0 {
        proof {
            lemma_empty_generation_stays_empty(table@, root, round as nat, (n + 1) as nat);
        }
    }
    result
}

/// How a shell command is started: the program and its arguments.
pub struct ShellCommand<'a> {
    pub program: &'static str,
    pub args: Vec<&'a str>,
}

/// Starts `command` with `cmd /C` on Windows and with `sh -c` elsewhere.
pub fn shell_command<'a>(command: &'a str, windows: bool) -> (shell: ShellCommand<'a>)
    ensures
        windows ==> shell.program@ == "cmd"@ && shell.args@ == seq!["/C", command],
        !windows ==> shell.program@ == "sh"@ && shell.args@ == seq!["-c", command],
{
    let mut args: Vec<&'a str> = Vec::new();
    if windows {
        args.push("/C");
        args.push(command);
        ShellCommand { program: "cmd", args }
    } else {
        args.push("-c");
        args.push(command);
        ShellCommand { program: "sh", args }
    }
}

/// The id that `sysinfo` gives the process `pid` on this platform:
/// `usize::from(sysinfo::Pid::from(pid))`.
///
/// `sysinfo` holds a process id as `pid_t` (`i32`) on Linux, Android,
/// FreeBSD, macOS and iOS and as `usize` elsewhere, converting with `as` both
/// ways; the contract claims only what holds on all of them: an id that fits
/// in `i32` comes back unchanged. Larger ids are cut to 32 bits on the first
/// platforms and kept on the others, which the contract leaves unsaid.
#[verifier::external_body]
fn canonical_pid(pid: usize) -> (id: usize)
    ensures
        pid <= i32::MAX ==> id == pid,
{
    usize::from(sysinfo::Pid::from(pid))
}

/// The processes running now, each with its parent, read with
/// `sysinfo::System::new_all()` and `processes()`, ids converted with
/// `usize::from`.
///
/// What processes run, and the order of the table (that of a `HashMap`), are
/// up to the machine; the contract claims only that no id occurs twice, as
/// the ids are the keys of the `HashMap` that `processes()` returns.
#[verifier::external_body]
fn process_parent_table() -> (table: ProcessTable)
    ensures
        ids_distinct(table@),
{
    let system = sysinfo::System::new_all();
    system.processes().iter().map(|(pid, process)| (usize::from(*pid), process.parent().map(usize::from))).collect()
}

/// The ids of all processes below `pid` that run now, generation by generation.
///
/// The result is what the first `table.len() + 1` generations below the
/// process hold, in a table of the running processes, whose ids are
/// distinct; the process is `pid` itself whenever `pid` fits in `i32`.
/// Whenever the search below it ends, that is every process below it. On a
/// table whose search never ends the search stops there.
pub fn get_process_recursive(pid: usize) -> (found: Vec<usize>)
    ensures
        exists|root: usize, table: Seq<(usize, Option<usize>)>|
            {
                &&& ids_distinct(table)
                &&& (pid <= i32::MAX ==> root == pid)
                &&& found@ == #[trigger] descendants_within(table, root, (table.len() + 1) as nat)
                &&& forall|depth: nat|
                    #![trigger generation(table, root, depth)]
                    generation(table, root, depth).len() == 0 ==> found@ == descendants_within(table, root, depth)
            },
{
    let root = canonical_pid(pid);
    let table = process_parent_table();
    let found = descendants_within_bound(root, &table);
    proof {
        assert forall|depth: nat|
            #![trigger generation(table@, root, depth)]
            generation(table@, root, depth).len() == 0 implies found@ == descendants_within(table@, root, depth) by {
            lemma_search_ends_within_table(table@, root, depth);
        }
    }
    assert(ids_distinct(table@) && (pid <= i32::MAX ==> root == pid) && found@ == descendants_within(
        table@,
        root,
        (table@.len() + 1) as nat,
    ));
    found
}

} // verus!
