//! App labels and icon lookup for window classes.

use vstd::prelude::*;
use vstd::string::StringExecFns;

use crate::paths::{after_last, join_of, path_join, tail_after};

verus! {

broadcast use vstd::string::group_string_axioms;

/// Short human label for a window class: the part after its last `.` or
/// `/` (e.g. `dev.warp.Warp` gives `Warp`).
pub fn short_name(class: &str) -> (r: &str)
    ensures
        r@ == after_last(class@, '.', '/'),
{
    tail_after(class, '.', '/')
}

/// `s` in lower case, as `str::to_lowercase` of std maps it (full Unicode
/// case mapping).
pub uninterp spec fn lowercase_of(s: Seq<char>) -> Seq<char>;

/// `str::to_lowercase` of std. Trusted to return the lower-case mapping
/// that std computes, which depends on `s` alone.
#[verifier::external_body]
fn to_lower(s: &str) -> (r: String)
    ensures
        r@ == lowercase_of(s@),
{
    s.to_lowercase()
}

/// `s` without items equal to the one before them.
pub open spec fn dedup_adjacent(s: Seq<Seq<char>>) -> Seq<Seq<char>>
    decreases s.len(),
{
    if s.len() <= 1 {
        s
    } else if s.last() == s[s.len() - 2] {
        dedup_adjacent(s.drop_last())
    } else {
        dedup_adjacent(s.drop_last()).push(s.last())
    }
}

/// Icon names tried for a window class, in order: the class, its last
/// dotted component, each also in lower case, repeats next to each other
/// dropped.
pub open spec fn icon_names(class: Seq<char>) -> Seq<Seq<char>> {
    let last = after_last(class, '.', '.');
    dedup_adjacent(seq![class, lowercase_of(class), last, lowercase_of(last)])
}

/// Icon-theme roots searched: the user's two hicolor themes (when there is
/// a home directory), then the system one.
pub open spec fn icon_roots(home: Option<Seq<char>>) -> Seq<Seq<char>> {
    match home {
        Some(h) => seq![
            path_join(h, ".local/share/icons/hicolor"@),
            path_join(h, ".icons/hicolor"@),
            "/usr/share/icons/hicolor"@,
        ],
        None => seq!["/usr/share/icons/hicolor"@],
    }
}

/// Icon sizes searched, in order.
pub open spec fn icon_sizes() -> Seq<Seq<char>> {
    seq!["48x48"@, "64x64"@, "32x32"@, "96x96"@, "128x128"@, "256x256"@, "24x24"@]
}

pub open spec fn png_name(name: Seq<char>) -> Seq<char> {
    name + ".png"@
}

/// `<root>/<size>/apps/<name>.png`.
pub open spec fn theme_icon_path(root: Seq<char>, size: Seq<char>, name: Seq<char>) -> Seq<char> {
    path_join(path_join(path_join(root, size), "apps"@), png_name(name))
}

/// `/usr/share/pixmaps/<name>.png`.
pub open spec fn pixmap_path(name: Seq<char>) -> Seq<char> {
    path_join("/usr/share/pixmaps"@, png_name(name))
}

/// Paths of icon `name` under `root`, one per size.
pub open spec fn sized_paths(root: Seq<char>, name: Seq<char>, sizes: Seq<Seq<char>>) -> Seq<
    Seq<char>,
>
    decreases sizes.len(),
{
    if sizes.len() == 0 {
        Seq::empty()
    } else {
        sized_paths(root, name, sizes.drop_last()).push(theme_icon_path(root, sizes.last(), name))
    }
}

/// Paths of icon `name` under each root in turn.
pub open spec fn root_paths(roots: Seq<Seq<char>>, name: Seq<char>) -> Seq<Seq<char>>
    decreases roots.len(),
{
    if roots.len() == 0 {
        Seq::empty()
    } else {
        root_paths(roots.drop_last(), name) + sized_paths(roots.last(), name, icon_sizes())
    }
}

/// For each name in turn: its theme paths, then its pixmap.
pub open spec fn name_paths(names: Seq<Seq<char>>, roots: Seq<Seq<char>>) -> Seq<Seq<char>>
    decreases names.len(),
{
    if names.len() == 0 {
        Seq::empty()
    } else {
        name_paths(names.drop_last(), roots) + root_paths(roots, names.last()) + seq![
            pixmap_path(names.last()),
        ]
    }
}

/// Every file that may hold the icon of `class`, in the order they are
/// tried.
pub open spec fn icon_candidates_of(class: Seq<char>, home: Option<Seq<char>>) -> Seq<Seq<char>> {
    name_paths(icon_names(class), icon_roots(home))
}

fn icon_size(k: usize) -> (r: &'static str)
    requires
        k < 7,
    ensures
        r@ == icon_sizes()[k as int],
{
    match k {
        0 => "48x48",
        1 => "64x64",
        2 => "32x32",
        3 => "96x96",
        4 => "128x128",
        5 => "256x256",
        _ => "24x24",
    }
}

fn png_of(name: &str) -> (r: String)
    ensures
        r@ == png_name(name@),
{
    let mut s = name.to_owned();
    s.append(".png");
    s
}

fn dedup_names(v: Vec<String>) -> (r: Vec<String>)
    ensures
        crate::store::string_views(r@) == dedup_adjacent(crate::store::string_views(v@)),
{
    let ghost s = crate::store::string_views(v@);
    let mut out: Vec<String> = Vec::new();
    let mut i: usize = 0;
    while i < v.len()
        invariant
            i <= v@.len(),
            s == crate::store::string_views(v@),
            s.len() == v@.len(),
            crate::store::string_views(out@) == dedup_adjacent(s.take(i as int)),
        decreases v@.len() - i,
    {
        let ghost t = s.take(i + 1);
        assert(t.drop_last() =~= s.take(i as int));
        assert(t.last() == v@[i as int]@);
        let ghost before = out@;
        if i > 0 && v[i] == v[i - 1] {
            assert(t[t.len() - 2] == v@[i - 1]@);
        } else {
            if i > 0 {
                assert(t[t.len() - 2] == v@[i - 1]@);
            } else {
                assert(t.len() == 1);
                assert(dedup_adjacent(t) == t);
                assert(s.take(0) =~= Seq::<Seq<char>>::empty());
            }
            out.push(v[i].clone());
            assert(crate::store::string_views(out@) =~= crate::store::string_views(before).push(
                v@[i as int]@,
            ));
        }
        i = i + 1;
    }
    assert(s.take(v@.len() as int) =~= s);
    out
}

/// Every file that may hold the icon of window class `class`, in the
/// order to try them; `home` is the user's home directory.
pub fn icon_candidates(class: &str, home: Option<&str>) -> (r: Vec<String>)
    ensures
        crate::store::string_views(r@) == icon_candidates_of(class@, home.deep_view()),
{
    let last = tail_after(class, '.', '.');
    let mut raw: Vec<String> = Vec::new();
    raw.push(class.to_owned());
    raw.push(to_lower(class));
    raw.push(last.to_owned());
    raw.push(to_lower(last));
    assert(crate::store::string_views(raw@) =~= seq![
        class@,
        lowercase_of(class@),
        after_last(class@, '.', '.'),
        lowercase_of(after_last(class@, '.', '.')),
    ]);
    let names = dedup_names(raw);
    let mut roots: Vec<String> = Vec::new();
    match home {
        Some(h) => {
            roots.push(join_of(h, ".local/share/icons/hicolor"));
            roots.push(join_of(h, ".icons/hicolor"));
        },
        None => {},
    }
    roots.push("/usr/share/icons/hicolor".to_owned());
    let ghost rs = crate::store::string_views(roots@);
    assert(rs =~= icon_roots(home.deep_view()));
    let ghost ns = crate::store::string_views(names@);
    let mut out: Vec<String> = Vec::new();
    let mut i: usize = 0;
    assert(ns.take(0) =~= Seq::<Seq<char>>::empty());
    assert(crate::store::string_views(out@) =~= Seq::<Seq<char>>::empty());
    while i < names.len()
        invariant
            i <= names@.len(),
            ns == crate::store::string_views(names@),
            ns.len() == names@.len(),
            rs == crate::store::string_views(roots@),
            rs.len() == roots@.len(),
            crate::store::string_views(out@) == name_paths(ns.take(i as int), rs),
        decreases names@.len() - i,
    {
        let name = names[i].as_str();
        assert(name@ == ns[i as int]);
        let ghost base = crate::store::string_views(out@);
        let file = png_of(name);
        let mut j: usize = 0;
        assert(rs.take(0) =~= Seq::<Seq<char>>::empty());
        assert(base + root_paths(rs.take(0), name@) =~= base);
        while j < roots.len()
            invariant
                j <= roots@.len(),
                rs == crate::store::string_views(roots@),
                rs.len() == roots@.len(),
                file@ == png_name(name@),
                crate::store::string_views(out@) == base + root_paths(rs.take(j as int), name@),
            decreases roots@.len() - j,
        {
            let root = roots[j].as_str();
            assert(root@ == rs[j as int]);
            let ghost mid = crate::store::string_views(out@);
            let mut k: usize = 0;
            assert(icon_sizes().take(0) =~= Seq::<Seq<char>>::empty());
            assert(mid + sized_paths(root@, name@, icon_sizes().take(0)) =~= mid);
            while k < 7
                invariant
                    k <= 7,
                    file@ == png_name(name@),
                    crate::store::string_views(out@) == mid + sized_paths(
                        root@,
                        name@,
                        icon_sizes().take(k as int),
                    ),
                decreases 7 - k,
            {
                let size = icon_size(k);
                let d = join_of(root, size);
                let a = join_of(d.as_str(), "apps");
                let p = join_of(a.as_str(), file.as_str());
                let ghost before = crate::store::string_views(out@);
                out.push(p);
                proof {
                    let t = icon_sizes().take(k + 1);
                    assert(t.drop_last() =~= icon_sizes().take(k as int));
                    assert(t.last() == icon_sizes()[k as int]);
                    assert(crate::store::string_views(out@) =~= before.push(
                        theme_icon_path(root@, icon_sizes()[k as int], name@),
                    ));
                    assert(sized_paths(root@, name@, t) == sized_paths(
                        root@,
                        name@,
                        icon_sizes().take(k as int),
                    ).push(theme_icon_path(root@, icon_sizes()[k as int], name@)));
                    assert(mid + sized_paths(root@, name@, t) =~= (mid + sized_paths(
                        root@,
                        name@,
                        icon_sizes().take(k as int),
                    )).push(theme_icon_path(root@, icon_sizes()[k as int], name@)));
                }
                k = k + 1;
            }
            proof {
                assert(icon_sizes().take(7) =~= icon_sizes());
                let t = rs.take(j + 1);
                assert(t.drop_last() =~= rs.take(j as int));
                assert(t.last() == rs[j as int]);
                assert(base + root_paths(t, name@) =~= base + root_paths(rs.take(j as int), name@)
                    + sized_paths(rs[j as int], name@, icon_sizes()));
            }
            j = j + 1;
        }
        let px = join_of("/usr/share/pixmaps", file.as_str());
        let ghost before = crate::store::string_views(out@);
        out.push(px);
        proof {
            assert(rs.take(rs.len() as int) =~= rs);
            let t = ns.take(i + 1);
            assert(t.drop_last() =~= ns.take(i as int));
            assert(t.last() == ns[i as int]);
            assert(crate::store::string_views(out@) =~= before.push(pixmap_path(name@)));
            assert(name_paths(t, rs) =~= base + root_paths(rs, name@) + seq![pixmap_path(name@)]);
        }
        i = i + 1;
    }
    assert(ns.take(ns.len() as int) =~= ns);
    out
}

} // verus!
