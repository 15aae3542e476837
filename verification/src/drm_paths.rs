//! Which DRM render nodes are tried, and in which order.

use crate::text::{decimal_text, join, joined, lemma_decimal_is_read_back, read_decimal, texts};
use vstd::prelude::*;

verus! {

/// The render node that is tried when nothing else is known.
pub const DEFAULT_DRM_RENDER_NODE: &'static str = "/dev/dri/renderD128";

/// A path joins the list, unless it is empty or already there.
pub open spec fn with_path(paths: Seq<Seq<char>>, path: Seq<char>) -> Seq<Seq<char>> {
    if path.len() == 0 || paths.contains(path) {
        paths
    } else {
        paths.push(path)
    }
}

/// Paths join the list one after the other.
pub open spec fn with_paths(paths: Seq<Seq<char>>, more: Seq<Seq<char>>) -> Seq<Seq<char>>
    decreases more.len(),
{
    if more.len() == 0 {
        paths
    } else {
        with_path(with_paths(paths, more.drop_last()), more.last())
    }
}

/// The paths to try: the configured one, then those that were found, or else the default.
pub open spec fn paths_to_try(configured: Option<Seq<char>>, discovered: Seq<Seq<char>>) -> Seq<
    Seq<char>,
> {
    let first = match configured {
        Some(path) => with_path(Seq::empty(), path),
        None => Seq::empty(),
    };
    let all = with_paths(first, discovered);
    if all.len() == 0 {
        seq![DEFAULT_DRM_RENDER_NODE@]
    } else {
        all
    }
}

/// Adds a path to the list, unless it is empty or already there.
pub fn push_unique_drm_path(paths: &mut Vec<String>, path: String)
    ensures
        texts(final(paths)@) == with_path(texts(old(paths)@), path@),
{
    let ghost before = texts(paths@);
    if path.as_str().is_empty() {
        assert(path@.len() == 0);
        return;
    }
    let mut i: usize = 0;
    while i < paths.len()
        invariant
            i <= paths@.len(),
            before == texts(paths@),
            paths@ == old(paths)@,
            forall|k: int| 0 <= k < i ==> #[trigger] before[k] != path@,
        decreases paths@.len() - i,
    {
        if paths[i] == path {
            assert(before[i as int] == path@);
            assert(before.contains(path@));
            return;
        }
        i = i + 1;
    }
    assert(!before.contains(path@));
    paths.push(path);
    assert(texts(paths@) =~= before.push(path@));
}

/// The paths to try: the configured one, then those that were found, or else the default.
pub fn vaapi_drm_paths_from(configured: Option<String>, discovered: Vec<String>) -> (r: Vec<String>)
    ensures
        texts(r@) == paths_to_try(
            match configured {
                Some(path) => Some(path@),
                None => None,
            },
            texts(discovered@),
        ),
{
    let mut paths: Vec<String> = Vec::new();
    assert(texts(paths@) =~= Seq::<Seq<char>>::empty());
    if let Some(path) = configured {
        push_unique_drm_path(&mut paths, path);
    }
    let ghost first = texts(paths@);
    let ghost all = texts(discovered@);
    let mut i: usize = 0;
    assert(all.take(0) =~= Seq::<Seq<char>>::empty());
    while i < discovered.len()
        invariant
            i <= discovered@.len(),
            all == texts(discovered@),
            texts(paths@) == with_paths(first, all.take(i as int)),
        decreases discovered@.len() - i,
    {
        proof {
            assert(all.take(i + 1).drop_last() =~= all.take(i as int));
            assert(all.take(i + 1).last() == discovered@[i as int]@);
        }
        push_unique_drm_path(&mut paths, discovered[i].clone());
        i = i + 1;
    }
    assert(all.take(i as int) =~= all);
    if paths.len() == 0 {
        paths.push(String::from_str(DEFAULT_DRM_RENDER_NODE));
        assert(texts(paths@) =~= seq![DEFAULT_DRM_RENDER_NODE@]);
    }
    paths
}

proof fn lemma_with_paths_keeps(paths: Seq<Seq<char>>, more: Seq<Seq<char>>)
    requires
        paths.no_duplicates(),
        forall|i: int| 0 <= i < paths.len() ==> (#[trigger] paths[i]).len() > 0,
    ensures
        with_paths(paths, more).no_duplicates(),
        paths.len() <= with_paths(paths, more).len(),
        with_paths(paths, more).take(paths.len() as int) == paths,
        forall|i: int|
            0 <= i < with_paths(paths, more).len() ==> (
            #[trigger] with_paths(paths, more)[i]).len() > 0,
        forall|i: int|
            0 <= i < more.len() && (#[trigger] more[i]).len() > 0 ==> with_paths(
                paths,
                more,
            ).contains(more[i]),
    decreases more.len(),
{
    if more.len() == 0 {
        assert(paths.take(paths.len() as int) =~= paths);
    } else {
        lemma_with_paths_keeps(paths, more.drop_last());
        let before = with_paths(paths, more.drop_last());
        let after = with_paths(paths, more);
        assert(after == with_path(before, more.last()));
        assert(after.take(before.len() as int) =~= before);
        assert(after.take(paths.len() as int) =~= before.take(paths.len() as int));
        assert forall|i: int| 0 <= i < more.len() && (#[trigger] more[i]).len() > 0 implies
        after.contains(more[i]) by {
            if i < more.len() - 1 {
                assert(more.drop_last()[i] == more[i]);
                assert(before.contains(more[i]));
                let k = choose|k: int| 0 <= k < before.len() && before[k] == more[i];
                assert(after[k] == more[i]);
            } else if !before.contains(more.last()) {
                assert(after[before.len() as int] == more[i]);
            }
        }
    }
}

/// No path is tried twice, and none that is empty. There is always one to try, the configured one
/// comes first, and every one that was found is among them.
pub proof fn lemma_paths_are_tried_once(configured: Option<Seq<char>>, discovered: Seq<Seq<char>>)
    ensures
        paths_to_try(configured, discovered).len() > 0,
        paths_to_try(configured, discovered).no_duplicates(),
        forall|i: int|
            0 <= i < paths_to_try(configured, discovered).len() ==> (
            #[trigger] paths_to_try(configured, discovered)[i]).len() > 0,
        configured is Some && configured->0.len() > 0 ==> paths_to_try(configured, discovered)[0]
            == configured->0,
        forall|i: int|
            0 <= i < discovered.len() && (#[trigger] discovered[i]).len() > 0 ==> paths_to_try(
                configured,
                discovered,
            ).contains(discovered[i]),
{
    reveal_strlit("/dev/dri/renderD128");
    let first = match configured {
        Some(path) => with_path(Seq::empty(), path),
        None => Seq::empty(),
    };
    lemma_with_paths_keeps(first, discovered);
    let all = with_paths(first, discovered);
    if first.len() > 0 {
        assert(all.take(1)[0] == all[0]);
    }
}

/// The paths to try where render nodes are not looked for: the configured one and the default.
pub fn configured_drm_paths(configured: Option<String>) -> (r: Vec<String>)
    ensures
        texts(r@) == (match configured {
            Some(path) => seq![path@, DEFAULT_DRM_RENDER_NODE@],
            None => seq![DEFAULT_DRM_RENDER_NODE@],
        }),
{
    let mut paths: Vec<String> = Vec::new();
    if let Some(path) = configured {
        paths.push(path);
    }
    paths.push(String::from_str(DEFAULT_DRM_RENDER_NODE));
    assert(texts(paths@) =~= (match configured {
        Some(path) => seq![path@, DEFAULT_DRM_RENDER_NODE@],
        None => seq![DEFAULT_DRM_RENDER_NODE@],
    }));
    paths
}

/// The message that no display could be opened.
pub fn no_usable_drm_display_error(paths: &[String]) -> (r: String)
    ensures
        r@ == "no usable DRM display found in "@ + joined(texts(paths@), ", "@),
{
    let list = join(paths, ", ");
    String::from_str("no usable DRM display found in ").concat(list.as_str())
}

/// A decimal digit's value.
pub open spec fn digit_value(c: char) -> Option<int> {
    if '0' <= c && c <= '9' {
        Some(c as int - '0' as int)
    } else {
        None
    }
}

/// The number that a row of digits stands for; none if there is something else in it.
pub open spec fn digits_value(text: Seq<char>) -> Option<int>
    decreases text.len(),
{
    if text.len() == 0 {
        Some(0)
    } else {
        match (digits_value(text.drop_last()), digit_value(text.last())) {
            (Some(high), Some(low)) => Some(high * 10 + low),
            _ => None,
        }
    }
}

/// The 32-bit number in decimal notation, with or without a plus sign, that a text is.
pub open spec fn parsed_u32(text: Seq<char>) -> Option<u32> {
    let digits = if text.len() > 0 && text[0] == '+' {
        text.drop_first()
    } else {
        text
    };
    if digits.len() == 0 {
        None
    } else {
        match digits_value(digits) {
            Some(value) => if value <= u32::MAX {
                Some(value as u32)
            } else {
                None
            },
            None => None,
        }
    }
}

/// The number of a render node, from the name of its file.
pub open spec fn node_index(name: Seq<char>) -> Option<u32> {
    if "renderD"@.len() <= name.len() && name.take("renderD"@.len() as int) == "renderD"@ {
        parsed_u32(name.skip("renderD"@.len() as int))
    } else {
        None
    }
}

proof fn lemma_digits_grow(text: Seq<char>, at: int)
    requires
        0 <= at <= text.len(),
        digits_value(text) is Some,
    ensures
        digits_value(text.take(at)) is Some,
        0 <= digits_value(text.take(at))->0 <= digits_value(text)->0,
    decreases text.len(),
{
    if at == text.len() {
        assert(text.take(at) =~= text);
        lemma_digits_nonnegative(text);
    } else {
        lemma_digits_grow(text.drop_last(), at);
        assert(text.drop_last().take(at) =~= text.take(at));
    }
}

proof fn lemma_digits_nonnegative(text: Seq<char>)
    ensures
        digits_value(text) is Some ==> digits_value(text)->0 >= 0,
    decreases text.len(),
{
    if text.len() > 0 {
        lemma_digits_nonnegative(text.drop_last());
    }
}

/// The number of a render node, from the name of its file: what follows `renderD`.
pub fn render_node_index(name: &str) -> (r: Option<u32>)
    ensures
        r == node_index(name@),
{
    let prefix = "renderD";
    let prefix_len: usize = prefix.unicode_len();
    let len: usize = name.unicode_len();
    if len < prefix_len {
        return None;
    }
    let mut i: usize = 0;
    while i < prefix_len
        invariant
            i <= prefix_len == prefix@.len(),
            prefix_len <= len == name@.len(),
            prefix@ == "renderD"@,
            forall|k: int| 0 <= k < i ==> #[trigger] name@[k] == prefix@[k],
        decreases prefix_len - i,
    {
        if name.get_char(i) != prefix.get_char(i) {
            assert(name@.take(prefix_len as int)[i as int] != prefix@[i as int]);
            return None;
        }
        i = i + 1;
    }
    assert(name@.take(prefix_len as int) =~= prefix@);
    let ghost text = name@.skip(prefix_len as int);
    let mut start: usize = prefix_len;
    if start < len {
        let sign = name.get_char(start);
        assert(sign == text[0]);
        if sign == '+' {
            start = start + 1;
        }
    }
    let ghost digits = name@.skip(start as int);
    proof {
        if start > prefix_len {
            assert(text.drop_first() =~= digits);
        }
    }
    if start == len {
        return None;
    }
    let mut value: u32 = 0;
    let mut at: usize = start;
    assert(digits.take(0) =~= Seq::<char>::empty());
    while at < len
        invariant
            start <= at <= len == name@.len(),
            digits == name@.skip(start as int),
            digits_value(digits.take(at - start)) == Some(value as int),
            parsed_u32(text) == match digits_value(digits) {
                Some(value) => if value <= u32::MAX {
                    Some(value as u32)
                } else {
                    None
                },
                None => None,
            },
            node_index(name@) == parsed_u32(text),
        decreases len - at,
    {
        let c = name.get_char(at);
        let ghost more = digits.take(at - start + 1);
        proof {
            assert(more.drop_last() =~= digits.take(at - start));
            assert(more.last() == c);
            if digits_value(digits) is Some {
                lemma_digits_grow(digits, at - start + 1);
            }
        }
        if c < '0' || c > '9' {
            return None;
        }
        let low: u32 = c as u32 - '0' as u32;
        let wide: u64 = value as u64 * 10 + low as u64;
        if wide > u32::MAX as u64 {
            return None;
        }
        value = wide as u32;
        at = at + 1;
    }
    assert(digits.take(at - start) =~= digits);
    Some(value)
}

/// The numbers ascend.
pub open spec fn ascending(nodes: Seq<(u32, String)>) -> bool {
    forall|i: int, j: int|
        0 <= i < j < nodes.len() ==> (#[trigger] nodes[i]).0 <= (#[trigger] nodes[j]).0
}

/// A node takes its place among nodes in ascending order, after those with the same number.
pub open spec fn placed(nodes: Seq<(u32, String)>, node: (u32, String)) -> Seq<(u32, String)>
    decreases nodes.len(),
{
    if nodes.len() == 0 {
        seq![node]
    } else if nodes.last().0 <= node.0 {
        nodes.push(node)
    } else {
        placed(nodes.drop_last(), node).push(nodes.last())
    }
}

/// Nodes in ascending order of their numbers; those with the same number stay in their order.
pub open spec fn in_order(nodes: Seq<(u32, String)>) -> Seq<(u32, String)>
    decreases nodes.len(),
{
    if nodes.len() == 0 {
        Seq::empty()
    } else {
        placed(in_order(nodes.drop_last()), nodes.last())
    }
}

/// What `in_order` gives ascends.
pub proof fn lemma_in_order_ascends(nodes: Seq<(u32, String)>)
    ensures
        ascending(in_order(nodes)),
        in_order(nodes).len() == nodes.len(),
        in_order(nodes).to_multiset() == nodes.to_multiset(),
    decreases nodes.len(),
{
    broadcast use vstd::seq_lib::group_to_multiset_ensures;

    if nodes.len() > 0 {
        lemma_in_order_ascends(nodes.drop_last());
        lemma_placed_ascends(in_order(nodes.drop_last()), nodes.last());
        assert(nodes =~= nodes.drop_last().push(nodes.last()));
    } else {
        assert(in_order(nodes) =~= nodes);
    }
}

proof fn lemma_placed_ascends(nodes: Seq<(u32, String)>, node: (u32, String))
    requires
        ascending(nodes),
    ensures
        ascending(placed(nodes, node)),
        placed(nodes, node).len() == nodes.len() + 1,
        placed(nodes, node).to_multiset() == nodes.to_multiset().insert(node),
        forall|i: int|
            0 <= i < placed(nodes, node).len() ==> (#[trigger] placed(nodes, node)[i]).0 <= node.0
                || exists|k: int|
                0 <= k < nodes.len() && placed(nodes, node)[i] == #[trigger] nodes[k],
    decreases nodes.len(),
{
    broadcast use vstd::seq_lib::group_to_multiset_ensures;

    if nodes.len() == 0 {
        assert(placed(nodes, node) =~= nodes.push(node));
    } else if nodes.last().0 <= node.0 {
        assert(placed(nodes, node) == nodes.push(node));
        assert forall|i: int| 0 <= i < nodes.len() implies (#[trigger] nodes[i]).0 <= node.0 by {
            if i < nodes.len() - 1 {
                assert(nodes[i].0 <= nodes[nodes.len() - 1].0);
            }
        }
    } else {
        let shorter = nodes.drop_last();
        lemma_placed_ascends(shorter, node);
        let inner = placed(shorter, node);
        let all = placed(nodes, node);
        assert(all == inner.push(nodes.last()));
        assert(nodes =~= shorter.push(nodes.last()));
        assert(inner.push(nodes.last()).to_multiset() =~= shorter.to_multiset().insert(node).insert(
            nodes.last(),
        ));
        assert(nodes.to_multiset().insert(node) =~= shorter.to_multiset().insert(node).insert(
            nodes.last(),
        ));
        assert forall|i: int| 0 <= i < inner.len() implies (#[trigger] inner[i]).0
            <= nodes.last().0 by {
            if inner[i].0 > node.0 {
                let k = choose|k: int| 0 <= k < shorter.len() && inner[i] == #[trigger] shorter[k];
                assert(nodes[k].0 <= nodes[nodes.len() - 1].0);
            }
        }
        assert forall|i: int| 0 <= i < all.len() implies (#[trigger] all[i]).0 <= node.0
            || exists|k: int| 0 <= k < nodes.len() && all[i] == #[trigger] nodes[k] by {
            if i < inner.len() {
                assert(all[i] == inner[i]);
                if inner[i].0 > node.0 {
                    let k = choose|k: int|
                        0 <= k < shorter.len() && inner[i] == #[trigger] shorter[k];
                    assert(nodes[k] == all[i]);
                }
            } else {
                assert(all[i] == nodes[nodes.len() - 1]);
            }
        }
    }
}

/// The paths of nodes.
pub open spec fn node_paths(nodes: Seq<(u32, String)>) -> Seq<Seq<char>> {
    nodes.map_values(|node: (u32, String)| node.1@)
}

/// The paths of the render nodes that were found, in ascending order of their numbers.
pub fn sorted_render_nodes(found: Vec<(u32, String)>) -> (r: Vec<String>)
    ensures
        texts(r@) == node_paths(in_order(found@)),
{
    let mut sorted: Vec<(u32, String)> = Vec::new();
    let mut i: usize = 0;
    assert(found@.take(0) =~= Seq::<(u32, String)>::empty());
    while i < found.len()
        invariant
            i <= found@.len(),
            sorted@ == in_order(found@.take(i as int)),
        decreases found@.len() - i,
    {
        proof {
            assert(found@.take(i + 1).drop_last() =~= found@.take(i as int));
            assert(found@.take(i + 1).last() == found@[i as int]);
        }
        let node = (found[i].0, found[i].1.clone());
        place(&mut sorted, node);
        i = i + 1;
    }
    assert(found@.take(i as int) =~= found@);
    let mut paths: Vec<String> = Vec::new();
    let mut k: usize = 0;
    let ghost all = node_paths(sorted@);
    assert(texts(paths@) =~= all.take(0));
    while k < sorted.len()
        invariant
            k <= sorted@.len(),
            all == node_paths(sorted@),
            texts(paths@) == all.take(k as int),
        decreases sorted@.len() - k,
    {
        let ghost earlier = texts(paths@);
        paths.push(sorted[k].1.clone());
        k = k + 1;
        proof {
            assert(all[k - 1] == sorted@[k - 1].1@);
            assert(texts(paths@) =~= earlier.push(all[k - 1]));
            assert(texts(paths@) =~= all.take(k as int));
        }
    }
    assert(all.take(k as int) =~= all);
    paths
}

/// Puts a node in its place.
fn place(nodes: &mut Vec<(u32, String)>, node: (u32, String))
    ensures
        final(nodes)@ == placed(old(nodes)@, node),
{
    let ghost before = nodes@;
    let mut at: usize = nodes.len();
    let ghost mut after: Seq<(u32, String)> = Seq::empty();
    assert(before.take(before.len() as int) =~= before);
    assert(placed(before, node) =~= placed(before, node) + after);
    while at > 0 && nodes[at - 1].0 > node.0
        invariant
            at <= before.len(),
            nodes@ == before,
            after == before.skip(at as int),
            placed(before, node) == placed(before.take(at as int), node) + after,
        decreases at,
    {
        let ghost shorter = before.take(at - 1);
        let ghost current = before.take(at as int);
        proof {
            assert(current.drop_last() =~= shorter);
            let last = before[at - 1];
            assert(placed(current, node) == placed(shorter, node).push(last));
            assert(placed(shorter, node).push(last) + after =~= placed(shorter, node) + (
            seq![last] + after));
            after = seq![last] + after;
            assert(after =~= before.skip(at - 1));
        }
        at = at - 1;
    }
    proof {
        let current = before.take(at as int);
        assert(placed(current, node) =~= current.push(node));
        assert(before.insert(at as int, node) =~= current.push(node) + after);
    }
    nodes.insert(at, node);
}

/// A path is tried only if it was configured or found; where there is none of either, the default is,
/// and only then.
pub proof fn lemma_no_other_path_is_tried(
    configured: Option<Seq<char>>,
    discovered: Seq<Seq<char>>,
    path: Seq<char>,
)
    ensures
        ({
            let given = (configured is Some && configured->0.len() > 0) || exists|i: int|
                0 <= i < discovered.len() && (#[trigger] discovered[i]).len() > 0;
            &&& given && paths_to_try(configured, discovered).contains(path) ==> configured == Some(
                path,
            ) || discovered.contains(path)
            &&& !given ==> paths_to_try(configured, discovered) == seq!["/dev/dri/renderD128"@]
        }),
{
    let first = match configured {
        Some(path) => with_path(Seq::empty(), path),
        None => Seq::empty(),
    };
    lemma_paths_come_from_somewhere(first, discovered, path);
    lemma_with_paths_keeps(first, discovered);
    let all = with_paths(first, discovered);
    if exists|i: int| 0 <= i < discovered.len() && (#[trigger] discovered[i]).len() > 0 {
        let i = choose|i: int| 0 <= i < discovered.len() && (#[trigger] discovered[i]).len() > 0;
        assert(all.contains(discovered[i]));
    }
    if all.len() > 0 && first.len() == 0 {
        lemma_paths_come_from_somewhere(first, discovered, all[0]);
        let i = choose|i: int| 0 <= i < discovered.len() && discovered[i] == all[0];
        assert(discovered[i].len() > 0);
    }
    if first.contains(path) {
        let i = choose|i: int| 0 <= i < first.len() && first[i] == path;
        assert(configured == Some(path));
    }
}

proof fn lemma_paths_come_from_somewhere(
    paths: Seq<Seq<char>>,
    more: Seq<Seq<char>>,
    path: Seq<char>,
)
    ensures
        with_paths(paths, more).contains(path) ==> paths.contains(path) || more.contains(path),
    decreases more.len(),
{
    if more.len() > 0 {
        let shorter = more.drop_last();
        let before = with_paths(paths, shorter);
        lemma_paths_come_from_somewhere(paths, shorter, path);
        if with_paths(paths, more).contains(path) {
            let i = choose|i: int|
                0 <= i < with_paths(paths, more).len() && with_paths(paths, more)[i] == path;
            if i < before.len() {
                assert(before[i] == path);
                if shorter.contains(path) {
                    let k = choose|k: int| 0 <= k < shorter.len() && shorter[k] == path;
                    assert(more[k] == path);
                }
            } else {
                assert(more[more.len() - 1] == path);
            }
        }
    }
}

/// The place where a path first stands among those that were found.
pub open spec fn first_found_at(discovered: Seq<Seq<char>>, path: Seq<char>, at: int) -> bool {
    &&& 0 <= at < discovered.len()
    &&& discovered[at] == path
    &&& forall|i: int| 0 <= i < at ==> #[trigger] discovered[i] != path
}

/// Paths that were found are tried in the order in which they were first found, after the configured
/// one.
pub proof fn lemma_paths_are_tried_in_order(
    configured: Option<Seq<char>>,
    discovered: Seq<Seq<char>>,
    sooner: int,
    later: int,
    sooner_at: int,
    later_at: int,
)
    requires
        0 <= sooner < later < paths_to_try(configured, discovered).len(),
        first_found_at(discovered, paths_to_try(configured, discovered)[sooner], sooner_at),
        first_found_at(discovered, paths_to_try(configured, discovered)[later], later_at),
        configured != Some(paths_to_try(configured, discovered)[sooner]),
    ensures
        sooner_at < later_at,
{
    let first = match configured {
        Some(path) => with_path(Seq::empty(), path),
        None => Seq::empty(),
    };
    let all = with_paths(first, discovered);
    lemma_with_paths_keeps(first, discovered);
    if first.len() > 0 {
        assert(all.take(first.len() as int)[0] == first[0]);
    }
    lemma_added_in_order(first, discovered, sooner, later, sooner_at, later_at);
}

proof fn lemma_added_in_order(
    paths: Seq<Seq<char>>,
    more: Seq<Seq<char>>,
    sooner: int,
    later: int,
    sooner_at: int,
    later_at: int,
)
    requires
        paths.no_duplicates(),
        forall|i: int| 0 <= i < paths.len() ==> (#[trigger] paths[i]).len() > 0,
        paths.len() <= sooner < later < with_paths(paths, more).len(),
        first_found_at(more, with_paths(paths, more)[sooner], sooner_at),
        first_found_at(more, with_paths(paths, more)[later], later_at),
    ensures
        sooner_at < later_at,
    decreases more.len(),
{
    let shorter = more.drop_last();
    let before = with_paths(paths, shorter);
    let after = with_paths(paths, more);
    lemma_with_paths_keeps(paths, shorter);
    if later < before.len() {
        assert(after[sooner] == before[sooner] && after[later] == before[later]);
        lemma_first_found_in_front(paths, shorter, more.last(), sooner, sooner_at);
        lemma_first_found_in_front(paths, shorter, more.last(), later, later_at);
        lemma_added_in_order(paths, shorter, sooner, later, sooner_at, later_at);
    } else {
        assert(after[later] == more.last());
        assert(after[sooner] == before[sooner]);
        lemma_first_found_in_front(paths, shorter, more.last(), sooner, sooner_at);
        if later_at < shorter.len() {
            assert(shorter[later_at] == more.last());
            assert(before.contains(more.last()));
        }
    }
}

/// A path that is in the list already was found in what has been looked at already.
proof fn lemma_first_found_in_front(
    paths: Seq<Seq<char>>,
    shorter: Seq<Seq<char>>,
    last: Seq<char>,
    place: int,
    at: int,
)
    requires
        paths.no_duplicates(),
        forall|i: int| 0 <= i < paths.len() ==> (#[trigger] paths[i]).len() > 0,
        paths.len() <= place < with_paths(paths, shorter).len(),
        first_found_at(shorter.push(last), with_paths(paths, shorter)[place], at),
    ensures
        first_found_at(shorter, with_paths(paths, shorter)[place], at),
{
    let before = with_paths(paths, shorter);
    let path = before[place];
    let all = shorter.push(last);
    lemma_paths_come_from_somewhere(paths, shorter, path);
    lemma_with_paths_keeps(paths, shorter);
    assert(before.contains(path));
    if paths.contains(path) {
        let i = choose|i: int| 0 <= i < paths.len() && paths[i] == path;
        assert(before.take(paths.len() as int)[i] == before[i]);
        assert(before[i] == before[place]);
    }
    let k = choose|k: int| 0 <= k < shorter.len() && shorter[k] == path;
    assert(all[k] == path);
    if at == shorter.len() {
        assert(all[k] != path);
    }
    assert forall|i: int| 0 <= i < at implies #[trigger] shorter[i] != path by {
        assert(all[i] != path);
    }
}

/// A render node is found by its number: the name `renderD` and the number in decimal notation, with or
/// without a plus sign.
pub proof fn lemma_node_is_found_by_its_number(number: u32)
    ensures
        node_index("renderD"@ + decimal_text(number as nat)) == Some(number),
        node_index("renderD+"@ + decimal_text(number as nat)) == Some(number),
{
    reveal_strlit("renderD");
    reveal_strlit("renderD+");
    let digits = decimal_text(number as nat);
    lemma_decimal_is_read_back(number as nat);
    lemma_digits_are_read_alike(digits);
    let plain = "renderD"@ + digits;
    let signed = "renderD+"@ + digits;
    assert(plain.take(7) =~= "renderD"@);
    assert(plain.skip(7) =~= digits);
    assert(signed.take(7) =~= "renderD"@);
    assert(signed.skip(7).drop_first() =~= digits);
    assert(signed.skip(7)[0] == '+');
}

proof fn lemma_digits_are_read_alike(text: Seq<char>)
    requires
        forall|i: int| 0 <= i < text.len() ==> '0' as int <= #[trigger] text[i] as int <= '9' as int,
    ensures
        digits_value(text) == Some(read_decimal(text)),
    decreases text.len(),
{
    if text.len() > 0 {
        let shorter = text.drop_last();
        assert forall|i: int| 0 <= i < shorter.len() implies '0' as int <= #[trigger] shorter[i]
            as int <= '9' as int by {
            assert(shorter[i] == text[i]);
        }
        lemma_digits_are_read_alike(shorter);
        assert('0' as int <= text[text.len() - 1] as int <= '9' as int);
    }
}

/// A name that does not begin with `renderD`, one that ends there, and one with something else than
/// digits in its number belong to no render node.
pub proof fn lemma_other_names_are_no_nodes(name: Seq<char>, at: int)
    requires
        name.len() <= 7 || name.take(7) != seq!['r', 'e', 'n', 'd', 'e', 'r', 'D'] || (8 <= at
            < name.len() && !('0' as int <= name[at] as int <= '9' as int)),
    ensures
        node_index(name) is None,
{
    reveal_strlit("renderD");
    assert("renderD"@ =~= seq!['r', 'e', 'n', 'd', 'e', 'r', 'D']);
    if name.len() > 7 && name.take(7) == "renderD"@ {
        let text = name.skip(7);
        let digits = if text.len() > 0 && text[0] == '+' {
            text.drop_first()
        } else {
            text
        };
        let place = if text.len() > 0 && text[0] == '+' {
            at - 8
        } else {
            at - 7
        };
        assert(digits[place] == name[at]);
        if digits_value(digits) is Some {
            lemma_all_are_digits(digits, place);
        }
    } else if name.len() == 7 {
        assert(name.skip(7).len() == 0);
    }
}

proof fn lemma_all_are_digits(text: Seq<char>, at: int)
    requires
        0 <= at < text.len(),
        digits_value(text) is Some,
    ensures
        '0' as int <= text[at] as int <= '9' as int,
    decreases text.len(),
{
    if at < text.len() - 1 {
        lemma_all_are_digits(text.drop_last(), at);
        assert(text.drop_last()[at] == text[at]);
    }
}

/// Nodes with the same number stay in their order.
pub proof fn lemma_equal_numbers_stay_in_order(nodes: Seq<(u32, String)>, number: u32)
    ensures
        in_order(nodes).filter(|node: (u32, String)| node.0 == number) == nodes.filter(
            |node: (u32, String)| node.0 == number,
        ),
    decreases nodes.len(),
{
    reveal(Seq::filter);
    let same = |node: (u32, String)| node.0 == number;
    if nodes.len() > 0 {
        lemma_equal_numbers_stay_in_order(nodes.drop_last(), number);
        lemma_in_order_ascends(nodes.drop_last());
        lemma_placed_behind_equals(in_order(nodes.drop_last()), nodes.last(), number);
    } else {
        assert(in_order(nodes) =~= nodes);
    }
}

proof fn lemma_placed_behind_equals(nodes: Seq<(u32, String)>, node: (u32, String), number: u32)
    requires
        ascending(nodes),
    ensures
        placed(nodes, node).filter(|node: (u32, String)| node.0 == number) == if node.0 == number {
            nodes.filter(|node: (u32, String)| node.0 == number).push(node)
        } else {
            nodes.filter(|node: (u32, String)| node.0 == number)
        },
    decreases nodes.len(),
{
    reveal(Seq::filter);
    let same = |node: (u32, String)| node.0 == number;
    if nodes.len() == 0 {
        assert(seq![node].drop_last() =~= nodes);
    } else if nodes.last().0 <= node.0 {
        assert(nodes.push(node).drop_last() =~= nodes);
    } else {
        let shorter = nodes.drop_last();
        lemma_placed_behind_equals(shorter, node, number);
        let inner = placed(shorter, node);
        assert(inner.push(nodes.last()).drop_last() =~= inner);
    }
}

/// The path of each node that was found is handed out, as it is, at the place of its node.
pub proof fn lemma_every_node_has_its_path(nodes: Seq<(u32, String)>, i: int)
    requires
        0 <= i < nodes.len(),
    ensures
        node_paths(nodes).len() == nodes.len(),
        node_paths(nodes)[i] == nodes[i].1@,
{
}

} // verus!
