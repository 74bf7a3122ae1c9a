//! Import bookkeeping: which files of a folder are PNG files and in what
//! order they come, and the item that each imported file yields.

use vstd::prelude::*;
use crate::model::ImportItem;
use crate::decode::{png_info_of, png_info_error_of, thumbnail_result, thumbnail_error, base64_standard,
    load_png_meta, make_thumbnail, rgba8_to_data_url};

verus! {

/// Three-way comparison of byte strings, lexicographic (a proper prefix
/// comes first): -1, 0 or 1.
pub open spec fn bytes_order(a: Seq<u8>, b: Seq<u8>) -> int
    decreases a.len(),
{
    if a.len() == 0 {
        if b.len() == 0 { 0 } else { -1 }
    } else if b.len() == 0 {
        1
    } else if a[0] < b[0] {
        -1
    } else if a[0] > b[0] {
        1
    } else {
        bytes_order(a.drop_first(), b.drop_first())
    }
}

/// Three-way comparison of paths given as their components: component by
/// component, each compared as bytes (a proper prefix comes first).
pub open spec fn path_order(a: Seq<Seq<u8>>, b: Seq<Seq<u8>>) -> int
    decreases a.len(),
{
    if a.len() == 0 {
        if b.len() == 0 { 0 } else { -1 }
    } else if b.len() == 0 {
        1
    } else if bytes_order(a[0], b[0]) != 0 {
        bytes_order(a[0], b[0])
    } else {
        path_order(a.drop_first(), b.drop_first())
    }
}

/// Swapping the operands negates the comparison of byte strings.
pub proof fn lemma_bytes_order_antisym(a: Seq<u8>, b: Seq<u8>)
    ensures
        bytes_order(a, b) == -bytes_order(b, a),
        -1 <= bytes_order(a, b) <= 1,
    decreases a.len(),
{
    if a.len() > 0 && b.len() > 0 && a[0] == b[0] {
        lemma_bytes_order_antisym(a.drop_first(), b.drop_first());
    }
}

/// The order of byte strings is transitive, strictly where a step is strict.
pub proof fn lemma_bytes_order_trans(a: Seq<u8>, b: Seq<u8>, c: Seq<u8>)
    requires
        bytes_order(a, b) <= 0,
        bytes_order(b, c) <= 0,
    ensures
        bytes_order(a, c) <= 0,
        bytes_order(a, b) < 0 || bytes_order(b, c) < 0 ==> bytes_order(a, c) < 0,
    decreases a.len(),
{
    if a.len() > 0 && b.len() > 0 && c.len() > 0 && a[0] == b[0] && b[0] == c[0] {
        lemma_bytes_order_trans(a.drop_first(), b.drop_first(), c.drop_first());
    }
}

/// Byte strings that compare as 0 are equal.
pub proof fn lemma_bytes_order_eq(a: Seq<u8>, b: Seq<u8>)
    requires
        bytes_order(a, b) == 0,
    ensures
        a == b,
    decreases a.len(),
{
    if a.len() > 0 {
        lemma_bytes_order_eq(a.drop_first(), b.drop_first());
        assert(a =~= seq![a[0]] + a.drop_first());
        assert(b =~= seq![b[0]] + b.drop_first());
    } else {
        assert(a =~= b);
    }
}

/// Swapping the operands negates the comparison of paths.
pub proof fn lemma_path_order_antisym(a: Seq<Seq<u8>>, b: Seq<Seq<u8>>)
    ensures
        path_order(a, b) == -path_order(b, a),
        -1 <= path_order(a, b) <= 1,
    decreases a.len(),
{
    if a.len() > 0 && b.len() > 0 {
        lemma_bytes_order_antisym(a[0], b[0]);
        if bytes_order(a[0], b[0]) == 0 {
            lemma_path_order_antisym(a.drop_first(), b.drop_first());
        }
    }
}

/// The order of paths is transitive, strictly where a step is strict.
pub proof fn lemma_path_order_trans(a: Seq<Seq<u8>>, b: Seq<Seq<u8>>, c: Seq<Seq<u8>>)
    requires
        path_order(a, b) <= 0,
        path_order(b, c) <= 0,
    ensures
        path_order(a, c) <= 0,
        path_order(a, b) < 0 || path_order(b, c) < 0 ==> path_order(a, c) < 0,
    decreases a.len(),
{
    if a.len() > 0 && b.len() > 0 && c.len() > 0 {
        lemma_bytes_order_antisym(a[0], b[0]);
        lemma_bytes_order_antisym(b[0], c[0]);
        lemma_bytes_order_antisym(a[0], c[0]);
        if bytes_order(a[0], b[0]) == 0 {
            lemma_bytes_order_eq(a[0], b[0]);
        }
        if bytes_order(b[0], c[0]) == 0 {
            lemma_bytes_order_eq(b[0], c[0]);
        }
        if bytes_order(a[0], b[0]) <= 0 && bytes_order(b[0], c[0]) <= 0 {
            lemma_bytes_order_trans(a[0], b[0], c[0]);
        }
        if bytes_order(a[0], b[0]) == 0 && bytes_order(b[0], c[0]) == 0 {
            lemma_path_order_trans(a.drop_first(), b.drop_first(), c.drop_first());
        }
    }
}

fn bytes_compare(a: &Vec<u8>, b: &Vec<u8>) -> (r: i8)
    ensures
        r == bytes_order(a@, b@),
{
    let n = a.len();
    let m = b.len();
    let mut i: usize = 0;
    assert(a@.subrange(0, n as int) =~= a@);
    assert(b@.subrange(0, m as int) =~= b@);
    while i < n && i < m
        invariant
            n == a@.len(),
            m == b@.len(),
            i <= n,
            i <= m,
            bytes_order(a@, b@) == bytes_order(a@.subrange(i as int, n as int), b@.subrange(i as int, m as int)),
        decreases n - i,
    {
        if a[i] < b[i] {
            return -1;
        }
        if a[i] > b[i] {
            return 1;
        }
        assert(a@.subrange(i as int, n as int).drop_first() =~= a@.subrange(i + 1, n as int));
        assert(b@.subrange(i as int, m as int).drop_first() =~= b@.subrange(i + 1, m as int));
        i = i + 1;
    }
    if i < n {
        1
    } else if i < m {
        -1
    } else {
        0
    }
}

fn path_compare(a: &Vec<Vec<u8>>, b: &Vec<Vec<u8>>) -> (r: i8)
    ensures
        r == path_order(a@.map_values(|c: Vec<u8>| c@), b@.map_values(|c: Vec<u8>| c@)),
{
    let ghost av = a@.map_values(|c: Vec<u8>| c@);
    let ghost bv = b@.map_values(|c: Vec<u8>| c@);
    let n = a.len();
    let m = b.len();
    let mut i: usize = 0;
    assert(av.subrange(0, n as int) =~= av);
    assert(bv.subrange(0, m as int) =~= bv);
    while i < n && i < m
        invariant
            n == a@.len(),
            m == b@.len(),
            av == a@.map_values(|c: Vec<u8>| c@),
            bv == b@.map_values(|c: Vec<u8>| c@),
            i <= n,
            i <= m,
            path_order(av, bv) == path_order(av.subrange(i as int, n as int), bv.subrange(i as int, m as int)),
        decreases n - i,
    {
        let c = bytes_compare(&a[i], &b[i]);
        assert(av.subrange(i as int, n as int)[0] == a@[i as int]@);
        assert(bv.subrange(i as int, m as int)[0] == b@[i as int]@);
        if c != 0 {
            return c;
        }
        assert(av.subrange(i as int, n as int).drop_first() =~= av.subrange(i + 1, n as int));
        assert(bv.subrange(i as int, m as int).drop_first() =~= bv.subrange(i + 1, m as int));
        i = i + 1;
    }
    if i < n {
        1
    } else if i < m {
        -1
    } else {
        0
    }
}


/// Index of the last `.` among the first `n` bytes of `name`, or -1.
pub open spec fn last_dot(name: Seq<u8>, n: int) -> int
    decreases n,
{
    if n <= 0 {
        -1
    } else if name[n - 1] == 46u8 {
        n - 1
    } else {
        last_dot(name, n - 1)
    }
}

/// The extension of a file name, as a path sees it: the bytes after the
/// last `.`, where that dot is not the first byte and the name is not `..`.
pub open spec fn extension_of(name: Seq<u8>) -> Option<Seq<u8>> {
    let k = last_dot(name, name.len() as int);
    if name == seq![46u8, 46u8] || k <= 0 {
        None
    } else {
        Some(name.subrange(k + 1, name.len() as int))
    }
}

/// Whether a byte is the letter `lower` in either case (`lower` is an ASCII
/// lower-case letter).
pub open spec fn letter_either_case(b: u8, lower: u8) -> bool {
    b == lower || b == lower - 32
}

/// Whether the extension of `name`, lower-cased, is `png`.
pub open spec fn png_extension(name: Seq<u8>) -> bool {
    match extension_of(name) {
        Some(e) => e.len() == 3 && letter_either_case(e[0], 112u8) && letter_either_case(e[1], 110u8)
            && letter_either_case(e[2], 103u8),
        None => false,
    }
}

/// Whether the file name `name` ends in `.png` in any letter case (where a
/// lone leading dot does not start an extension).
pub fn has_png_extension(name: &[u8]) -> (r: bool)
    ensures
        r == png_extension(name@),
{
    let n = name.len();
    if n == 2 && name[0] == 46u8 && name[1] == 46u8 {
        assert(name@ =~= seq![46u8, 46u8]);
        return false;
    }
    let mut i = n;
    while i > 0 && name[i - 1] != 46u8
        invariant
            n == name@.len(),
            i <= n,
            last_dot(name@, n as int) == last_dot(name@, i as int),
        decreases i,
    {
        i = i - 1;
    }
    if i <= 1 {
        return false;
    }
    let k = i - 1;
    if n - k - 1 != 3 {
        return false;
    }
    let e0 = name[k + 1];
    let e1 = name[k + 2];
    let e2 = name[k + 3];
    (e0 == 112u8 || e0 == 80u8) && (e1 == 110u8 || e1 == 78u8) && (e2 == 103u8 || e2 == 71u8)
}

/// The key by which path `i` of `paths` is ordered: its components as bytes.
pub open spec fn path_key(paths: Seq<Vec<Vec<u8>>>, i: int) -> Seq<Seq<u8>> {
    paths[i]@.map_values(|c: Vec<u8>| c@)
}

/// Whether path `i` of `paths` names a PNG file: its last component has a
/// `png` extension.
pub open spec fn is_png_path(paths: Seq<Vec<Vec<u8>>>, i: int) -> bool {
    paths[i]@.len() > 0 && png_extension(paths[i]@.last()@)
}

/// Whether the indices in `order` list their paths in path order.
pub open spec fn sorted_by_path(paths: Seq<Vec<Vec<u8>>>, order: Seq<usize>) -> bool {
    forall|a: int, b: int|
        0 <= a < b < order.len() ==> path_order(#[trigger] path_key(paths, order[a] as int), #[trigger] path_key(paths, order[b] as int)) <= 0
}

/// Inserting PNG path `i` at position `k`, after the paths that come no
/// later and before the next, keeps a partial scan of the first `i` paths
/// a scan of the first `i + 1`.
proof fn lemma_insert_in_order(paths: Seq<Vec<Vec<u8>>>, old_order: Seq<usize>, i: usize, k: int)
    requires
        i < paths.len(),
        is_png_path(paths, i as int),
        0 <= k <= old_order.len(),
        old_order.no_duplicates(),
        forall|m: int| 0 <= m < old_order.len() ==> #[trigger] old_order[m] < i && is_png_path(paths, old_order[m] as int),
        forall|j: int| 0 <= j < i && is_png_path(paths, j) ==> old_order.contains(j as usize),
        sorted_by_path(paths, old_order),
        forall|j: int| 0 <= j < k ==> path_order(#[trigger] path_key(paths, old_order[j] as int), path_key(paths, i as int)) <= 0,
        k < old_order.len() ==> path_order(path_key(paths, i as int), path_key(paths, old_order[k] as int)) <= 0,
    ensures
        ({
            let order = old_order.insert(k, i);
            &&& order.no_duplicates()
            &&& forall|m: int| 0 <= m < order.len() ==> #[trigger] order[m] < i + 1 && is_png_path(paths, order[m] as int)
            &&& forall|j: int| 0 <= j < i + 1 && is_png_path(paths, j) ==> order.contains(j as usize)
            &&& sorted_by_path(paths, order)
        }),
{
    let order = old_order.insert(k, i);
    assert forall|m: int| 0 <= m < order.len() implies #[trigger] order[m] < i + 1 && is_png_path(paths, order[m] as int) by {
        if m < k {
            assert(order[m] == old_order[m]);
        } else if m > k {
            assert(order[m] == old_order[m - 1]);
        }
    }
    assert forall|a: int, b: int| 0 <= a < b < order.len() implies path_order(#[trigger] path_key(paths, order[a] as int), #[trigger] path_key(paths, order[b] as int)) <= 0 by {
        if a < k && b < k {
            assert(order[a] == old_order[a] && order[b] == old_order[b]);
        } else if a < k && b == k {
        } else if a < k && b > k {
            assert(order[b] == old_order[b - 1]);
            assert(path_order(path_key(paths, old_order[a] as int), path_key(paths, old_order[b - 1] as int)) <= 0);
        } else if a == k {
            assert(order[b] == old_order[b - 1]);
            if b - 1 > k {
                assert(path_order(path_key(paths, old_order[k] as int), path_key(paths, old_order[b - 1] as int)) <= 0);
                lemma_path_order_trans(path_key(paths, i as int), path_key(paths, old_order[k] as int), path_key(paths, old_order[b - 1] as int));
            }
        } else {
            assert(order[a] == old_order[a - 1] && order[b] == old_order[b - 1]);
        }
    }
    assert forall|x: int, y: int| 0 <= x < y < order.len() implies order[x] != order[y] by {
        if x < k && y < k {
        } else if x < k && y == k {
            assert(old_order[x] < i);
        } else if x < k {
            assert(order[y] == old_order[y - 1]);
        } else if x == k {
            assert(old_order[y - 1] < i);
        } else {
            assert(order[x] == old_order[x - 1] && order[y] == old_order[y - 1]);
        }
    }
    assert forall|j: int| 0 <= j < i + 1 && is_png_path(paths, j) implies order.contains(j as usize) by {
        if j < i {
            assert(old_order.contains(j as usize));
            let w = choose|w: int| 0 <= w < old_order.len() && old_order[w] == j as usize;
            if w < k {
                assert(order[w] == j as usize);
            } else {
                assert(order[w + 1] == j as usize);
            }
        } else {
            assert(order[k] == i);
        }
    }
}

/// Picks the PNG files among the files found in a folder tree (each path
/// given by its components) and sorts them by path, so that a scan always
/// yields the same order: the indices of the PNG paths, in path order.
pub fn scan_png_files(paths: &Vec<Vec<Vec<u8>>>) -> (order: Vec<usize>)
    ensures
        order@.no_duplicates(),
        forall|k: int| 0 <= k < order@.len() ==> #[trigger] order@[k] < paths@.len() && is_png_path(paths@, order@[k] as int),
        forall|i: int| 0 <= i < paths@.len() && is_png_path(paths@, i) ==> order@.contains(i as usize),
        sorted_by_path(paths@, order@),
        is_scan_of(paths@, order@),
{
    let n = paths.len();
    let mut order: Vec<usize> = Vec::new();
    let mut i: usize = 0;
    while i < n
        invariant
            n == paths@.len(),
            i <= n,
            order@.no_duplicates(),
            forall|k: int| 0 <= k < order@.len() ==> #[trigger] order@[k] < i && is_png_path(paths@, order@[k] as int),
            forall|j: int| 0 <= j < i && is_png_path(paths@, j) ==> order@.contains(j as usize),
            sorted_by_path(paths@, order@),
        decreases n - i,
    {
        let p = &paths[i];
        let png = if p.len() > 0 {
            let last = &p[p.len() - 1];
            has_png_extension(last.as_slice())
        } else {
            false
        };
        if png {
            let len = order.len();
            let mut k: usize = 0;
            while k < len && path_compare(p, &paths[order[k]]) >= 0
                invariant
                    n == paths@.len(),
                    i < n,
                    len == order@.len(),
                    k <= len,
                    *p == paths@[i as int],
                    forall|m: int| 0 <= m < order@.len() ==> #[trigger] order@[m] < i,
                    forall|j: int| 0 <= j < k ==> path_order(path_key(paths@, i as int), #[trigger] path_key(paths@, order@[j] as int)) >= 0,
                decreases len - k,
            {
                k = k + 1;
            }
            let ghost old_order = order@;
            proof {
                assert forall|j: int| 0 <= j < k implies path_order(#[trigger] path_key(paths@, old_order[j] as int), path_key(paths@, i as int)) <= 0 by {
                    lemma_path_order_antisym(path_key(paths@, i as int), path_key(paths@, old_order[j] as int));
                }
                if k < len {
                    lemma_path_order_antisym(path_key(paths@, i as int), path_key(paths@, old_order[k as int] as int));
                }
            }
            order.insert(k, i);
            proof {
                lemma_insert_in_order(paths@, old_order, i, k as int);
            }
        } else {
            proof {
                assert(!is_png_path(paths@, i as int));
            }
        }
        i = i + 1;
    }
    order
}


/// Equal paths, and only they, compare as 0.
pub proof fn lemma_path_order_eq(a: Seq<Seq<u8>>, b: Seq<Seq<u8>>)
    requires
        path_order(a, b) == 0,
    ensures
        a == b,
    decreases a.len(),
{
    if a.len() > 0 {
        lemma_bytes_order_eq(a[0], b[0]);
        lemma_path_order_eq(a.drop_first(), b.drop_first());
        assert(a =~= seq![a[0]] + a.drop_first());
        assert(b =~= seq![b[0]] + b.drop_first());
    } else {
        assert(a =~= b);
    }
}

/// Whether a path, given by its components, names a PNG file.
pub open spec fn png_key(key: Seq<Seq<u8>>) -> bool {
    key.len() > 0 && png_extension(key.last())
}

/// The paths that a scan result `order` lists, in its order.
pub open spec fn scanned_paths(paths: Seq<Vec<Vec<u8>>>, order: Seq<usize>) -> Seq<Seq<Seq<u8>>> {
    order.map_values(|i: usize| path_key(paths, i as int))
}

/// What a scan of `paths` promises of its result `order`: each PNG path
/// once, no other path, in path order.
pub open spec fn is_scan_of(paths: Seq<Vec<Vec<u8>>>, order: Seq<usize>) -> bool {
    &&& order.no_duplicates()
    &&& forall|k: int| 0 <= k < order.len() ==> #[trigger] order[k] < paths.len() && is_png_path(paths, order[k] as int)
    &&& forall|i: int| 0 <= i < paths.len() && is_png_path(paths, i) ==> order.contains(i as usize)
    &&& sorted_by_path(paths, order)
}

/// Whether `x` is one of `paths`.
pub open spec fn lists_path(paths: Seq<Vec<Vec<u8>>>, x: Seq<Seq<u8>>) -> bool {
    exists|i: int| 0 <= i < paths.len() && path_key(paths, i) == x
}

/// Whether no two entries of `paths` are the same path.
pub open spec fn distinct_paths(paths: Seq<Vec<Vec<u8>>>) -> bool {
    forall|i: int, j: int| 0 <= i < j < paths.len() ==> path_key(paths, i) != path_key(paths, j)
}

/// Whether `s` is in strictly increasing path order.
pub open spec fn strictly_sorted(s: Seq<Seq<Seq<u8>>>) -> bool {
    forall|a: int, b: int| 0 <= a < b < s.len() ==> path_order(#[trigger] s[a], #[trigger] s[b]) < 0
}

proof fn lemma_png_key(paths: Seq<Vec<Vec<u8>>>, i: int)
    requires
        0 <= i < paths.len(),
    ensures
        is_png_path(paths, i) == png_key(path_key(paths, i)),
{
    let key = path_key(paths, i);
    if paths[i]@.len() > 0 {
        assert(key.last() == paths[i]@.last()@);
    }
}

proof fn lemma_scan_strictly_sorted(paths: Seq<Vec<Vec<u8>>>, order: Seq<usize>)
    requires
        is_scan_of(paths, order),
        distinct_paths(paths),
    ensures
        strictly_sorted(scanned_paths(paths, order)),
        scanned_paths(paths, order).len() == order.len(),
{
    let s = scanned_paths(paths, order);
    assert forall|a: int, b: int| 0 <= a < b < s.len() implies path_order(#[trigger] s[a], #[trigger] s[b]) < 0 by {
        let (i, j) = (order[a] as int, order[b] as int);
        assert(order[a] != order[b]);
        assert(path_order(path_key(paths, i), path_key(paths, j)) <= 0);
        if path_order(path_key(paths, i), path_key(paths, j)) == 0 {
            lemma_path_order_eq(path_key(paths, i), path_key(paths, j));
            if i < j {
                assert(path_key(paths, i) != path_key(paths, j));
            } else {
                assert(path_key(paths, j) != path_key(paths, i));
            }
        }
    }
}

/// A scan lists exactly the PNG paths among `paths`.
proof fn lemma_scan_contents(paths: Seq<Vec<Vec<u8>>>, order: Seq<usize>, x: Seq<Seq<u8>>)
    requires
        is_scan_of(paths, order),
        paths.len() <= usize::MAX,
    ensures
        scanned_paths(paths, order).contains(x) <==> (png_key(x) && lists_path(paths, x)),
{
    let s = scanned_paths(paths, order);
    if s.contains(x) {
        let k = choose|k: int| 0 <= k < s.len() && s[k] == x;
        let i = order[k] as int;
        lemma_png_key(paths, i);
        assert(path_key(paths, i) == x);
    }
    if png_key(x) && lists_path(paths, x) {
        let i = choose|i: int| 0 <= i < paths.len() && path_key(paths, i) == x;
        lemma_png_key(paths, i);
        assert(order.contains(i as usize));
        let k = choose|k: int| 0 <= k < order.len() && order[k] == i as usize;
        assert(s[k] == x);
    }
}

/// Two strictly sorted sequences with the same elements are equal.
proof fn lemma_sorted_unique(s: Seq<Seq<Seq<u8>>>, t: Seq<Seq<Seq<u8>>>)
    requires
        strictly_sorted(s),
        strictly_sorted(t),
        forall|x: Seq<Seq<u8>>| s.contains(x) <==> t.contains(x),
    ensures
        s == t,
    decreases s.len(),
{
    if s.len() == 0 {
        if t.len() > 0 {
            assert(t.contains(t[0]));
        }
        assert(s =~= t);
    } else {
        assert(s.contains(s[0]));
        assert(t.len() > 0);
        assert(t.contains(t[0]));
        let j = choose|j: int| 0 <= j < t.len() && t[j] == s[0];
        let i = choose|i: int| 0 <= i < s.len() && s[i] == t[0];
        lemma_path_order_antisym(s[0], s[0]);
        if j > 0 {
            assert(path_order(t[0], t[j]) < 0);
            if i > 0 {
                assert(path_order(s[0], s[i]) < 0);
                lemma_path_order_antisym(s[0], s[i]);
            }
            assert(false);
        }
        let (s1, t1) = (s.drop_first(), t.drop_first());
        assert forall|x: Seq<Seq<u8>>| s1.contains(x) <==> t1.contains(x) by {
            if s1.contains(x) {
                let k = choose|k: int| 0 <= k < s1.len() && s1[k] == x;
                assert(path_order(s[0], s[k + 1]) < 0);
                assert(s.contains(x));
                let m = choose|m: int| 0 <= m < t.len() && t[m] == x;
                assert(m != 0);
                assert(t1[m - 1] == x);
            }
            if t1.contains(x) {
                let k = choose|k: int| 0 <= k < t1.len() && t1[k] == x;
                assert(path_order(t[0], t[k + 1]) < 0);
                assert(t.contains(x));
                let m = choose|m: int| 0 <= m < s.len() && s[m] == x;
                assert(m != 0);
                assert(s1[m - 1] == x);
            }
        }
        assert forall|a: int, b: int| 0 <= a < b < s1.len() implies path_order(#[trigger] s1[a], #[trigger] s1[b]) < 0 by {
            assert(s1[a] == s[a + 1] && s1[b] == s[b + 1]);
        }
        assert forall|a: int, b: int| 0 <= a < b < t1.len() implies path_order(#[trigger] t1[a], #[trigger] t1[b]) < 0 by {
            assert(t1[a] == t[a + 1] && t1[b] == t[b + 1]);
        }
        lemma_sorted_unique(s1, t1);
        assert(s =~= seq![s[0]] + s1);
        assert(t =~= seq![t[0]] + t1);
    }
}

/// The order in which a folder walk finds its files does not matter: two
/// walks that find the same paths (each path once) scan to the same list.
pub proof fn law_scan_independent_of_walk_order(p1: Seq<Vec<Vec<u8>>>, o1: Seq<usize>, p2: Seq<Vec<Vec<u8>>>, o2: Seq<usize>)
    requires
        p1.len() <= usize::MAX,
        p2.len() <= usize::MAX,
        is_scan_of(p1, o1),
        is_scan_of(p2, o2),
        distinct_paths(p1),
        distinct_paths(p2),
        forall|x: Seq<Seq<u8>>| #![trigger lists_path(p1, x)] #![trigger lists_path(p2, x)] lists_path(p1, x) <==> lists_path(p2, x),
    ensures
        scanned_paths(p1, o1) == scanned_paths(p2, o2),
{
    lemma_scan_strictly_sorted(p1, o1);
    lemma_scan_strictly_sorted(p2, o2);
    assert forall|x: Seq<Seq<u8>>| scanned_paths(p1, o1).contains(x) <==> scanned_paths(p2, o2).contains(x) by {
        lemma_scan_contents(p1, o1, x);
        lemma_scan_contents(p2, o2, x);
    }
    lemma_sorted_unique(scanned_paths(p1, o1), scanned_paths(p2, o2));
}

/// A file to import: its path and file stem as text, and the outcome of
/// reading it (the file's bytes, or why it could not be opened).
#[derive(Debug)]
pub struct ImportSource {
    pub path: String,
    pub name: String,
    pub contents: Result<Vec<u8>, String>,
}

/// Long edge of import thumbnails.
pub const THUMBNAIL_EDGE: u32 = 128;

/// What importing `source` under layer id `id` yields: the error message,
/// or the item with the file's size and a data URL of its thumbnail.
pub open spec fn import_outcome(source: ImportSource, id: u32, res: Result<ImportItem, String>) -> bool {
    match source.contents {
        Err(e) => res matches Err(m) && m@ == e@,
        Ok(b) => match png_info_of(b@) {
            None => res matches Err(m) && m@ == "读取PNG信息失败: "@ + png_info_error_of(b@),
            Some((w, h, d)) => match thumbnail_result(b@, THUMBNAIL_EDGE) {
                None => res matches Err(m) && thumbnail_error(b@, THUMBNAIL_EDGE, m@),
                Some((tw, th, file)) => res matches Ok(
                    ImportItem::Loaded { id: rid, path, name, width, height, has_alpha, thumbnail },
                ) && rid == id && path@ == source.path@ && name@ == source.name@ && width == w && height == h
                    && has_alpha && thumbnail@ == "data:image/png;base64,"@ + base64_standard(file),
            },
        },
    }
}

/// Whether `item` is what the import list shows for `source` under id `id`:
/// the imported item, or an error item with the file's path and the reason.
pub open spec fn imported_as(source: ImportSource, id: u32, item: ImportItem) -> bool {
    match item {
        ImportItem::Error { path, reason } => path@ == source.path@ && import_outcome(source, id, Err(reason)),
        ImportItem::Loaded { .. } => import_outcome(source, id, Ok(item)),
    }
}

/// The values an import item carries, its strings taken as text.
pub open spec fn item_view(item: ImportItem) -> (bool, u32, Seq<char>, Seq<char>, u32, u32, bool, Seq<char>) {
    match item {
        ImportItem::Loaded { id, path, name, width, height, has_alpha, thumbnail } => (
            true,
            id,
            path@,
            name@,
            width,
            height,
            has_alpha,
            thumbnail@,
        ),
        ImportItem::Error { path, reason } => (false, 0, path@, reason@, 0, 0, false, Seq::empty()),
    }
}

/// An import item depends on its own file and layer id alone: whatever
/// other files are imported with it, and whether they fail, a file under a
/// given id always yields the same item, an error item included.
pub proof fn law_import_item_depends_on_own_file(source: ImportSource, id: u32, a: ImportItem, b: ImportItem)
    requires
        imported_as(source, id, a),
        imported_as(source, id, b),
    ensures
        item_view(a) == item_view(b),
{
}

/// An imported layer takes its width and height from its PNG header,
/// whatever size its thumbnail comes out at.
pub proof fn law_import_size_from_header(source: ImportSource, id: u32, item: ImportItem)
    requires
        imported_as(source, id, item),
    ensures
        match item {
            ImportItem::Loaded { width, height, .. } => source.contents matches Ok(b) && png_info_of(b@) matches Some(
                (w, h, d),
            ) && width == w && height == h,
            ImportItem::Error { .. } => true,
        },
{
}

/// Imports one file: its header, then a thumbnail of at most
/// `THUMBNAIL_EDGE` pixels on the long edge.
pub fn import_one(source: &ImportSource, id: u32) -> (res: Result<ImportItem, String>)
    ensures
        import_outcome(*source, id, res),
{
    let bytes = match &source.contents {
        Err(e) => {
            return Err(e.clone());
        },
        Ok(b) => b,
    };
    let (w, h, _is16) = match load_png_meta(bytes.as_slice()) {
        Ok(v) => v,
        Err(m) => {
            return Err(m);
        },
    };
    let (_tw, _th, thumb) = match make_thumbnail(bytes.as_slice(), THUMBNAIL_EDGE) {
        Ok(v) => v,
        Err(m) => {
            return Err(m);
        },
    };
    Ok(ImportItem::Loaded {
        id,
        path: source.path.clone(),
        name: source.name.clone(),
        width: w,
        height: h,
        has_alpha: true,
        thumbnail: rgba8_to_data_url(thumb.as_slice()),
    })
}

/// Imports the given files, in order, under consecutive layer ids starting
/// at `next_id`: one item per file, an error item where the file fails.
pub fn import_paths(sources: &Vec<ImportSource>, next_id: u32) -> (items: Vec<ImportItem>)
    requires
        sources@.len() > 0 ==> next_id + sources@.len() - 1 <= u32::MAX,
    ensures
        items@.len() == sources@.len(),
        forall|i: int| 0 <= i < sources@.len() ==> imported_as(sources@[i], (next_id + i) as u32, #[trigger] items@[i]),
{
    let n = sources.len();
    let mut items: Vec<ImportItem> = Vec::new();
    let mut i: usize = 0;
    while i < n
        invariant
            n == sources@.len(),
            n > 0 ==> next_id + n - 1 <= u32::MAX,
            i <= n,
            items@.len() == i,
            forall|j: int| 0 <= j < i ==> imported_as(sources@[j], (next_id + j) as u32, #[trigger] items@[j]),
        decreases n - i,
    {
        let id = next_id + i as u32;
        let source = &sources[i];
        let item = match import_one(source, id) {
            Ok(item) => item,
            Err(reason) => ImportItem::Error { path: source.path.clone(), reason },
        };
        items.push(item);
        i = i + 1;
    }
    items
}

} // verus!
