//! A scan as text: what was found, what was not loaded, and the list out of
//! which a plugin is chosen.

use vstd::prelude::*;
use vstd::string::*;

use crate::paths;
use crate::paths::file_name_of;
use crate::plugin::bundle::{PluginDescriptor, ScannedBundle};
use crate::plugin::discover;
use crate::plugin::discover::ScanResult;
use crate::text;
use crate::text::{copy_text, decimal};

verus! {

// ---------------------------------------------------------------------------
// What a scan found
// ---------------------------------------------------------------------------

/// A text, or a dash where it is empty.
pub open spec fn or_dash(s: Seq<char>) -> Seq<char> {
    if s.len() == 0 {
        "—"@
    } else {
        s
    }
}

/// Texts with a comma between them.
pub open spec fn comma_joined(v: Seq<Seq<char>>) -> Seq<char>
    decreases v.len(),
{
    if v.len() == 0 {
        Seq::empty()
    } else if v.len() == 1 {
        v[0]
    } else {
        comma_joined(v.drop_last()) + ", "@ + v.last()
    }
}

/// The lines about one plugin.
pub open spec fn descriptor_lines(d: PluginDescriptor) -> Seq<Seq<char>> {
    let named = seq![
        "    • "@ + d.name@ + "  ("@ + d.id@ + ")"@,
        "         vendor: "@ + or_dash(d.vendor@) + "   version: "@ + or_dash(d.version@),
    ];
    let described = if d.description@.len() > 0 {
        named.push("         "@ + d.description@)
    } else {
        named
    };
    if d.features@.len() > 0 {
        described.push(
            "         features: "@ + comma_joined(text::string_views(d.features@)),
        )
    } else {
        described
    }
}

/// The lines about the plugins of a bundle.
pub open spec fn all_descriptor_lines(ds: Seq<PluginDescriptor>) -> Seq<Seq<char>>
    decreases ds.len(),
{
    if ds.len() == 0 {
        Seq::empty()
    } else {
        all_descriptor_lines(ds.drop_last()) + descriptor_lines(ds.last())
    }
}

/// The lines about one bundle.
pub open spec fn bundle_lines(b: ScannedBundle) -> Seq<Seq<char>> {
    seq!["📦  "@ + b.path@] + if b.descriptors@.len() == 0 {
        seq!["    (bundle loaded but advertised no descriptors)"@]
    } else {
        all_descriptor_lines(b.descriptors@)
    }
}

/// The lines about several bundles.
pub open spec fn all_bundle_lines(bs: Seq<ScannedBundle>) -> Seq<Seq<char>>
    decreases bs.len(),
{
    if bs.len() == 0 {
        Seq::empty()
    } else {
        all_bundle_lines(bs.drop_last()) + bundle_lines(bs.last())
    }
}

/// How many plugins there are in bundles.
pub open spec fn plugin_count(bs: Seq<ScannedBundle>) -> nat
    decreases bs.len(),
{
    if bs.len() == 0 {
        0
    } else {
        plugin_count(bs.drop_last()) + bs.last().descriptors@.len()
    }
}

/// The lines about the bundles that did not load.
pub open spec fn all_error_lines(errors: Seq<(Seq<char>, Seq<char>)>) -> Seq<Seq<char>>
    decreases errors.len(),
{
    if errors.len() == 0 {
        Seq::empty()
    } else {
        all_error_lines(errors.drop_last()) + seq![
            "    "@ + errors.last().0,
            "        "@ + errors.last().1,
        ]
    }
}

/// The last line: how much was found.
pub open spec fn summary_line(scan: ScanResult) -> Seq<char> {
    "Summary: "@ + text::decimal_text(scan.bundles@.len()) + " bundle(s), "@ + text::decimal_text(
        plugin_count(scan.bundles@),
    ) + " plugin(s)"@ + if scan.errors@.len() == 0 {
        Seq::empty()
    } else {
        ", "@ + text::decimal_text(scan.errors@.len()) + " failed"@
    }
}

/// The lines about a scan.
pub open spec fn scan_text(scan: ScanResult) -> Seq<Seq<char>> {
    let empty = Seq::<char>::empty();
    if scan.bundles@.len() == 0 && scan.errors@.len() == 0 {
        seq![
            "No .clap bundles found."@,
            "  Drop a .clap into one of the paths above, or set CLAP_PATH to another directory and re-run."@,
        ]
    } else {
        all_bundle_lines(scan.bundles@) + (if scan.errors@.len() == 0 {
            Seq::empty()
        } else {
            seq![
                empty,
                "⚠  "@ + text::decimal_text(scan.errors@.len()) + " bundle(s) failed to load:"@,
            ] + all_error_lines(discover::error_views(scan.errors@))
        }) + seq![empty, summary_line(scan)]
    }
}

/// Adds a line.
fn say(lines: &mut Vec<String>, line: String)
    ensures
        text::string_views(final(lines)@) == text::string_views(old(lines)@) + seq![line@],
{
    lines.push(line);
    assert(text::string_views(lines@) =~= text::string_views(old(lines)@) + seq![line@]);
}

fn text_or_dash(s: &String) -> (r: String)
    ensures
        r@ == or_dash(s@),
{
    if s.as_str().is_empty() {
        "—".to_owned()
    } else {
        copy_text(s)
    }
}

fn join_with_commas(v: &Vec<String>) -> (r: String)
    ensures
        r@ == comma_joined(text::string_views(v@)),
{
    let ghost models = text::string_views(v@);
    let mut out = String::new();
    let n: usize = v.len();
    assert(out@ =~= Seq::empty());
    assert(models.take(0) =~= Seq::empty());
    for i in 0..n
        invariant
            n == v.len(),
            models == text::string_views(v@),
            out@ == comma_joined(models.take(i as int)),
    {
        assert(models[i as int] == v@[i as int]@);
        assert(models.take(i + 1).drop_last() =~= models.take(i as int));
        if i == 0 {
            out = copy_text(&v[i]);
        } else {
            out = out.concat(", ").concat(v[i].as_str());
        }
    }
    assert(models.take(n as int) =~= models);
    out
}

/// Adds the lines about one plugin.
fn say_descriptor(lines: &mut Vec<String>, d: &PluginDescriptor)
    ensures
        text::string_views(final(lines)@) == text::string_views(old(lines)@)
            + descriptor_lines(*d),
{
    let ghost start = text::string_views(lines@);
    say(
        lines,
        "    • ".to_owned().concat(d.name.as_str()).concat("  (").concat(d.id.as_str()).concat(")"),
    );
    say(
        lines,
        "         vendor: ".to_owned().concat(text_or_dash(&d.vendor).as_str()).concat(
            "   version: ",
        ).concat(text_or_dash(&d.version).as_str()),
    );
    if !d.description.as_str().is_empty() {
        say(lines, "         ".to_owned().concat(d.description.as_str()));
    }
    if d.features.len() > 0 {
        say(
            lines,
            "         features: ".to_owned().concat(join_with_commas(&d.features).as_str()),
        );
    }
    assert(text::string_views(lines@) =~= start + descriptor_lines(*d));
}

/// Adds the lines about one bundle.
fn say_bundle(lines: &mut Vec<String>, b: &ScannedBundle)
    ensures
        text::string_views(final(lines)@) == text::string_views(old(lines)@) + bundle_lines(*b),
{
    let ghost start = text::string_views(lines@);
    say(lines, "📦  ".to_owned().concat(b.path.as_str()));
    let n: usize = b.descriptors.len();
    if n == 0 {
        say(lines, "    (bundle loaded but advertised no descriptors)".to_owned());
    } else {
        let ghost headed = text::string_views(lines@);
        assert(b.descriptors@.take(0) =~= Seq::empty());
        assert(headed + Seq::<Seq<char>>::empty() =~= headed);
        for i in 0..n
            invariant
                n == b.descriptors.len(),
                text::string_views(lines@) == headed + all_descriptor_lines(
                    b.descriptors@.take(i as int),
                ),
        {
            assert(b.descriptors@.take(i + 1).drop_last() =~= b.descriptors@.take(i as int));
            say_descriptor(lines, &b.descriptors[i]);
            assert(text::string_views(lines@) =~= headed + all_descriptor_lines(
                b.descriptors@.take(i + 1),
            ));
        }
        assert(b.descriptors@.take(n as int) =~= b.descriptors@);
    }
    assert(text::string_views(lines@) =~= start + bundle_lines(*b));
}

/// How many plugins there are in bundles.
fn count_plugins(bs: &Vec<ScannedBundle>) -> (r: u64)
    requires
        plugin_count(bs@) <= u64::MAX,
    ensures
        r == plugin_count(bs@),
{
    let mut count: u64 = 0;
    let n: usize = bs.len();
    assert(bs@.take(0) =~= Seq::empty());
    for i in 0..n
        invariant
            n == bs.len(),
            plugin_count(bs@) <= u64::MAX,
            count == plugin_count(bs@.take(i as int)),
    {
        assert(bs@.take(i + 1).drop_last() =~= bs@.take(i as int));
        proof {
            lemma_plugin_count_grows(bs@, i + 1);
        }
        count = count + bs[i].descriptors.len() as u64;
    }
    assert(bs@.take(n as int) =~= bs@);
    count
}

proof fn lemma_plugin_count_grows(bs: Seq<ScannedBundle>, n: int)
    requires
        0 <= n <= bs.len(),
    ensures
        plugin_count(bs.take(n)) <= plugin_count(bs),
    decreases bs.len() - n,
{
    if n < bs.len() {
        assert(bs.take(n + 1).drop_last() =~= bs.take(n));
        lemma_plugin_count_grows(bs, n + 1);
    } else {
        assert(bs.take(n) =~= bs);
    }
}

/// The lines about a scan.
pub fn scan_lines(scan: &ScanResult) -> (r: Vec<String>)
    requires
        plugin_count(scan.bundles@) <= u64::MAX,
    ensures
        text::string_views(r@) == scan_text(*scan),
{
    let mut lines: Vec<String> = Vec::new();
    assert(text::string_views(lines@) =~= Seq::empty());
    let nb: usize = scan.bundles.len();
    let ne: usize = scan.errors.len();
    if nb == 0 && ne == 0 {
        say(&mut lines, "No .clap bundles found.".to_owned());
        say(
            &mut lines,
            "  Drop a .clap into one of the paths above, or set CLAP_PATH to another directory and re-run.".to_owned(),
        );
        assert(text::string_views(lines@) =~= scan_text(*scan));
        return lines;
    }
    assert(scan.bundles@.take(0) =~= Seq::empty());
    for i in 0..nb
        invariant
            nb == scan.bundles.len(),
            text::string_views(lines@) == all_bundle_lines(scan.bundles@.take(i as int)),
    {
        assert(scan.bundles@.take(i + 1).drop_last() =~= scan.bundles@.take(i as int));
        say_bundle(&mut lines, &scan.bundles[i]);
    }
    assert(scan.bundles@.take(nb as int) =~= scan.bundles@);
    let ghost found = text::string_views(lines@);
    let ghost errors = discover::error_views(scan.errors@);
    let mut failed = String::new();
    if ne > 0 {
        say(&mut lines, String::new());
        say(
            &mut lines,
            "⚠  ".to_owned().concat(decimal(ne as u64).as_str()).concat(
                " bundle(s) failed to load:",
            ),
        );
        let ghost headed = text::string_views(lines@);
        assert(errors.take(0) =~= Seq::empty());
        assert(headed + Seq::<Seq<char>>::empty() =~= headed);
        for i in 0..ne
            invariant
                ne == scan.errors.len(),
                errors == discover::error_views(scan.errors@),
                text::string_views(lines@) == headed + all_error_lines(errors.take(i as int)),
        {
            assert(errors.take(i + 1).drop_last() =~= errors.take(i as int));
            assert(errors[i as int] == (scan.errors@[i as int].0@, scan.errors@[i as int].1@));
            say(&mut lines, "    ".to_owned().concat(scan.errors[i].0.as_str()));
            say(&mut lines, "        ".to_owned().concat(scan.errors[i].1.as_str()));
            assert(text::string_views(lines@) =~= headed + all_error_lines(errors.take(i + 1)));
        }
        assert(errors.take(ne as int) =~= errors);
        failed = ", ".to_owned().concat(decimal(ne as u64).as_str()).concat(" failed");
    }
    assert(ne == 0 ==> failed@ =~= Seq::empty());
    say(&mut lines, String::new());
    say(
        &mut lines,
        "Summary: ".to_owned().concat(decimal(nb as u64).as_str()).concat(" bundle(s), ").concat(
            decimal(count_plugins(&scan.bundles)).as_str(),
        ).concat(" plugin(s)").concat(failed.as_str()),
    );
    assert(text::string_views(lines@) =~= scan_text(*scan));
    lines
}

// ---------------------------------------------------------------------------
// Choosing a plugin
// ---------------------------------------------------------------------------

/// A plugin by the numbers of its bundle and of its descriptor in it.
#[derive(Debug, Clone, Copy, PartialEq, Eq, Structural)]
pub struct PluginChoice {
    pub bundle: usize,
    pub descriptor: usize,
}

/// The plugins of the first `n` bundles, in order.
pub open spec fn choices(bs: Seq<ScannedBundle>, n: nat) -> Seq<PluginChoice>
    decreases n,
{
    if n == 0 {
        Seq::empty()
    } else {
        choices(bs, (n - 1) as nat) + Seq::new(
            bs[n - 1].descriptors@.len(),
            |k: int| PluginChoice { bundle: (n - 1) as usize, descriptor: k as usize },
        )
    }
}

/// The plugins of all bundles, in one list.
pub fn plugin_choices(scan: &ScanResult) -> (r: Vec<PluginChoice>)
    ensures
        r@ == choices(scan.bundles@, scan.bundles@.len()),
{
    let mut out: Vec<PluginChoice> = Vec::new();
    let n: usize = scan.bundles.len();
    for i in 0..n
        invariant
            n == scan.bundles.len(),
            out@ == choices(scan.bundles@, i as nat),
    {
        let m: usize = scan.bundles[i].descriptors.len();
        let ghost before = out@;
        for k in 0..m
            invariant
                out@ == before + Seq::new(
                    k as nat,
                    |k: int| PluginChoice { bundle: i, descriptor: k as usize },
                ),
        {
            out.push(PluginChoice { bundle: i, descriptor: k });
            assert(out@ =~= before + Seq::new(
                (k + 1) as nat,
                |k: int| PluginChoice { bundle: i, descriptor: k as usize },
            ));
        }
        assert(out@ =~= choices(scan.bundles@, (i + 1) as nat)) by {
            assert(choices(scan.bundles@, (i + 1) as nat) =~= before + Seq::new(
                m as nat,
                |k: int| PluginChoice { bundle: i, descriptor: k as usize },
            ));
        }
    }
    out
}

/// The name under which a bundle is shown: that of its file, or its path where
/// it has none.
pub open spec fn short_path(path: Seq<char>) -> Seq<char> {
    match paths::file_name(path) {
        Some(name) => name,
        None => path,
    }
}

/// The line for a plugin in the list.
pub open spec fn choice_text(i: nat, path: Seq<char>, d: PluginDescriptor) -> Seq<char> {
    "  ["@ + text::decimal_text(i) + "] "@ + d.name@ + " — "@ + d.vendor@ + "  ("@ + short_path(path)
        + ")"@
}

/// The line for a plugin in the list.
pub fn choice_line(i: usize, path: &str, d: &PluginDescriptor) -> (r: String)
    ensures
        r@ == choice_text(i as nat, path@, *d),
{
    let short = match file_name_of(path) {
        Some(name) => name,
        None => path.to_owned(),
    };
    "  [".to_owned().concat(decimal(i as u64).as_str()).concat("] ").concat(
        d.name.as_str(),
    ).concat(" — ").concat(d.vendor.as_str()).concat("  (").concat(short.as_str()).concat(")")
}

/// The plugin number `d` of the bundle number `b`.
pub open spec fn plugin_at(b: int, d: int) -> PluginChoice {
    PluginChoice { bundle: b as usize, descriptor: d as usize }
}

/// The list out of which a plugin is chosen holds every plugin of every bundle once, in
/// the order of the bundles and of the plugins in them.
pub proof fn law_every_plugin_can_be_chosen(bs: Seq<ScannedBundle>, n: nat)
    requires
        n <= bs.len() <= usize::MAX,
        forall|i: int| 0 <= i < bs.len() ==> (#[trigger] bs[i]).descriptors@.len() <= usize::MAX,
    ensures
        forall|i: int|
            0 <= i < choices(bs, n).len() ==> (#[trigger] choices(bs, n)[i]).bundle < n && choices(
                bs,
                n,
            )[i].descriptor < bs[choices(bs, n)[i].bundle as int].descriptors@.len(),
        forall|b: int, d: int|
            0 <= b < n && 0 <= d < bs[b].descriptors@.len() ==> choices(bs, n).contains(
                #[trigger] plugin_at(b, d),
            ),
        forall|i: int, j: int|
            0 <= i < j < choices(bs, n).len() ==> {
                let x = #[trigger] choices(bs, n)[i];
                let y = #[trigger] choices(bs, n)[j];
                x.bundle < y.bundle || (x.bundle == y.bundle && x.descriptor < y.descriptor)
            },
    decreases n,
{
    if n > 0 {
        let m = (n - 1) as nat;
        let before = choices(bs, m);
        let all = choices(bs, n);
        let count = bs[m as int].descriptors@.len();
        law_every_plugin_can_be_chosen(bs, m);
        assert(bs[m as int].descriptors@.len() <= usize::MAX);
        assert forall|i: int| 0 <= i < all.len() implies (#[trigger] all[i]).bundle < n
            && all[i].descriptor < bs[all[i].bundle as int].descriptors@.len() by {
            if i < before.len() {
                assert(all[i] == before[i]);
            }
        }
        assert forall|b: int, d: int| 0 <= b < n && 0 <= d
            < bs[b].descriptors@.len() implies all.contains(
            #[trigger] plugin_at(b, d),
        ) by {
            let want = plugin_at(b, d);
            if b < m {
                assert(before.contains(plugin_at(b, d)));
                let i = choose|i: int| 0 <= i < before.len() && before[i] == want;
                assert(all[i] == want);
            } else {
                assert(all[before.len() + d] == want);
            }
        }
        assert forall|i: int, j: int| 0 <= i < j < all.len() implies {
            let x = #[trigger] all[i];
            let y = #[trigger] all[j];
            x.bundle < y.bundle || (x.bundle == y.bundle && x.descriptor < y.descriptor)
        } by {
            if j < before.len() {
                assert(all[i] == before[i] && all[j] == before[j]);
            } else if i < before.len() {
                assert(all[i] == before[i]);
            }
        }
    }
}

/// A scan tells how many bundles and plugins it found: the plugins of each bundle count.
pub proof fn law_plugins_of_all_bundles_count(a: Seq<ScannedBundle>, b: ScannedBundle)
    ensures
        plugin_count(a.push(b)) == plugin_count(a) + b.descriptors@.len(),
        plugin_count(Seq::empty()) == 0,
{
    assert(a.push(b).drop_last() =~= a);
}

/// Whether lines stand in a text from line `k` on.
pub open spec fn stands_at(lines: Seq<Seq<char>>, k: int, text: Seq<Seq<char>>) -> bool {
    &&& 0 <= k
    &&& k + lines.len() <= text.len()
    &&& forall|j: int| 0 <= j < lines.len() ==> #[trigger] text[k + j] == lines[j]
}

proof fn lemma_stands_behind(
    lines: Seq<Seq<char>>,
    k: int,
    text: Seq<Seq<char>>,
    front: Seq<Seq<char>>,
    back: Seq<Seq<char>>,
)
    requires
        stands_at(lines, k, text),
    ensures
        stands_at(lines, front.len() + k, front + text + back),
{
    let all = front + text + back;
    assert forall|j: int| 0 <= j < lines.len() implies #[trigger] all[front.len() + k + j]
        == lines[j] by {
        assert(text[k + j] == lines[j]);
    }
}

proof fn lemma_bundle_stands(bs: Seq<ScannedBundle>, i: int) -> (k: int)
    requires
        0 <= i < bs.len(),
    ensures
        stands_at(bundle_lines(bs[i]), k, all_bundle_lines(bs)),
        k == all_bundle_lines(bs.take(i)).len(),
        k + bundle_lines(bs[i]).len() == all_bundle_lines(bs.take(i + 1)).len(),
    decreases bs.len(),
{
    let rest = bs.drop_last();
    assert(bs.take(i + 1).drop_last() =~= bs.take(i));
    if i == rest.len() {
        assert(bs.take(i) =~= rest);
        all_bundle_lines(rest).len() as int
    } else {
        assert(rest.take(i) =~= bs.take(i));
        let k = lemma_bundle_stands(rest, i);
        lemma_stands_behind(
            bundle_lines(bs[i]),
            k,
            all_bundle_lines(rest),
            Seq::empty(),
            bundle_lines(bs.last()),
        );
        assert(Seq::<Seq<char>>::empty() + all_bundle_lines(rest) + bundle_lines(bs.last())
            =~= all_bundle_lines(bs));
        k
    }
}

proof fn lemma_plugin_stands(ds: Seq<PluginDescriptor>, i: int) -> (k: int)
    requires
        0 <= i < ds.len(),
    ensures
        stands_at(descriptor_lines(ds[i]), k, all_descriptor_lines(ds)),
        k == all_descriptor_lines(ds.take(i)).len(),
        k + descriptor_lines(ds[i]).len() == all_descriptor_lines(ds.take(i + 1)).len(),
    decreases ds.len(),
{
    let rest = ds.drop_last();
    assert(ds.take(i + 1).drop_last() =~= ds.take(i));
    if i == rest.len() {
        assert(ds.take(i) =~= rest);
        all_descriptor_lines(rest).len() as int
    } else {
        assert(rest.take(i) =~= ds.take(i));
        let k = lemma_plugin_stands(rest, i);
        lemma_stands_behind(
            descriptor_lines(ds[i]),
            k,
            all_descriptor_lines(rest),
            Seq::empty(),
            descriptor_lines(ds.last()),
        );
        assert(Seq::<Seq<char>>::empty() + all_descriptor_lines(rest) + descriptor_lines(ds.last())
            =~= all_descriptor_lines(ds));
        k
    }
}

proof fn lemma_error_stands(errors: Seq<(Seq<char>, Seq<char>)>, i: int)
    requires
        0 <= i < errors.len(),
    ensures
        all_error_lines(errors).len() == 2 * errors.len(),
        all_error_lines(errors)[2 * i] == "    "@ + errors[i].0,
        all_error_lines(errors)[2 * i + 1] == "        "@ + errors[i].1,
    decreases errors.len(),
{
    let rest = errors.drop_last();
    if i < rest.len() {
        lemma_error_stands(rest, i);
    } else if rest.len() > 0 {
        lemma_error_stands(rest, 0);
    }
}

/// The text about a scan shows each bundle under its path, one behind the other. What it
/// says of a bundle without plugins is that.
pub proof fn law_scan_shows_its_bundles(scan: ScanResult, i: int) -> (r: (int, int))
    requires
        0 <= i < scan.bundles@.len(),
    ensures
        0 <= r.0 < r.1 < scan_text(scan).len(),
        i == 0 ==> r.0 == 0,
        scan_text(scan)[r.0] == "📦  "@ + scan.bundles@[i].path@,
        i + 1 < scan.bundles@.len() ==> scan_text(scan)[r.1] == "📦  "@ + scan.bundles@[i
            + 1].path@,
        scan.bundles@[i].descriptors@.len() == 0 ==> r.1 == r.0 + 2 && scan_text(scan)[r.0 + 1]
            == "    (bundle loaded but advertised no descriptors)"@,
{
    let bs = scan.bundles@;
    let text = scan_text(scan);
    let all = all_bundle_lines(bs);
    let k = lemma_bundle_stands(bs, i);
    let lines = bundle_lines(bs[i]);
    assert(bs.take(0) =~= Seq::empty());
    assert(lines[0] == "📦  "@ + bs[i].path@);
    assert(text[k] == all[k + 0]);
    assert(lines.len() >= 1);
    if bs[i].descriptors@.len() == 0 {
        assert(lines.len() == 2);
        assert(text[k + 1] == all[k + 1]);
    } else {
        let at = lemma_plugin_stands(bs[i].descriptors@, 0);
    }
    if i + 1 < bs.len() {
        let next = lemma_bundle_stands(bs, i + 1);
        assert(next == k + lines.len());
        assert(bundle_lines(bs[i + 1])[0] == "📦  "@ + bs[i + 1].path@);
        assert(text[next] == all[next + 0]);
    } else {
        assert(bs.take(i + 1) =~= bs);
    }
    (k, k + lines.len())
}

/// Below the path of its bundle the text about a scan shows each plugin: name and id in
/// one line, vendor and version in the next, then the description and the features where
/// there are any. The plugins come in order.
pub proof fn law_scan_shows_each_plugin(scan: ScanResult, i: int, d: int) -> (r: (int, int))
    requires
        0 <= i < scan.bundles@.len(),
        0 <= d < scan.bundles@[i].descriptors@.len(),
    ensures
        ({
            let text = scan_text(scan);
            let plugin = scan.bundles@[i].descriptors@[d];
            let (k, next) = r;
            let described = k + 2;
            let featured = if plugin.description@.len() == 0 { k + 2 } else { k + 3 };
            let end = if plugin.features@.len() == 0 { featured } else { featured + 1 };
            &&& 0 < k < next < text.len()
            &&& d == 0 ==> text[k - 1] == "📦  "@ + scan.bundles@[i].path@
            &&& text[k] == "    • "@ + plugin.name@ + "  ("@ + plugin.id@ + ")"@
            &&& text[k + 1] == "         vendor: "@ + (if plugin.vendor@.len() == 0 {
                "—"@
            } else {
                plugin.vendor@
            }) + "   version: "@ + (if plugin.version@.len() == 0 {
                "—"@
            } else {
                plugin.version@
            })
            &&& plugin.description@.len() > 0 ==> text[described] == "         "@
                + plugin.description@
            &&& plugin.features@.len() > 0 ==> text[featured] == "         features: "@
                + comma_joined(text::string_views(plugin.features@))
            &&& next == end
            &&& d + 1 < scan.bundles@[i].descriptors@.len() ==> {
                let after = scan.bundles@[i].descriptors@[d + 1];
                text[next] == "    • "@ + after.name@ + "  ("@ + after.id@ + ")"@
            }
        }),
{
    let bs = scan.bundles@;
    let ds = bs[i].descriptors@;
    let text = scan_text(scan);
    let all = all_bundle_lines(bs);
    let head = seq!["📦  "@ + bs[i].path@];
    let lines = bundle_lines(bs[i]);
    let k = lemma_bundle_stands(bs, i);
    let at = lemma_plugin_stands(ds, d);
    let of_plugin = descriptor_lines(ds[d]);
    assert(forall|j: int| 0 <= j < lines.len() ==> text[k + j] == #[trigger] lines[j]) by {
        assert forall|j: int| 0 <= j < lines.len() implies text[k + j] == #[trigger] lines[j] by {
            assert(all[k + j] == lines[j]);
        }
    }
    assert forall|j: int| 0 <= j < of_plugin.len() implies text[k + 1 + at + j]
        == #[trigger] of_plugin[j] by {
        assert(all_descriptor_lines(ds)[at + j] == of_plugin[j]);
        assert(lines[1 + at + j] == of_plugin[j]);
    }
    assert(lines[0] == head[0]);
    assert(ds.take(0) =~= Seq::empty());
    assert(text[k + 0] == lines[0]);
    assert(of_plugin[0] == "    • "@ + ds[d].name@ + "  ("@ + ds[d].id@ + ")"@);
    assert(text[k + 1 + at + 0] == of_plugin[0]);
    assert(text[k + 1 + at + 1] == of_plugin[1]);
    if of_plugin.len() > 2 {
        assert(text[k + 1 + at + 2] == of_plugin[2]);
    }
    if of_plugin.len() > 3 {
        assert(text[k + 1 + at + 3] == of_plugin[3]);
    }
    if d + 1 < ds.len() {
        let next = lemma_plugin_stands(ds, d + 1);
        let of_next = descriptor_lines(ds[d + 1]);
        assert(of_next[0] == "    • "@ + ds[d + 1].name@ + "  ("@ + ds[d + 1].id@ + ")"@);
        assert(all_descriptor_lines(ds)[next + 0] == of_next[0]);
        assert(lines[1 + next] == of_next[0]);
        assert(text[k + (1 + next)] == lines[1 + next]);
    } else {
        assert(ds.take(d + 1) =~= ds);
    }
    (k + 1 + at, k + 1 + at + of_plugin.len())
}

/// Below the bundles the text about a scan tells how many did not load, and of each of
/// those, in order, the path and, in the next line, the reason.
pub proof fn law_scan_shows_what_failed(scan: ScanResult, i: int) -> (k: int)
    requires
        0 <= i < scan.errors@.len(),
    ensures
        ({
            let text = scan_text(scan);
            &&& 2 <= k
            &&& text.len() == k + 2 * scan.errors@.len() + 2
            &&& text[k - 2] == Seq::<char>::empty()
            &&& text[k - 1] == "⚠  "@ + text::decimal_text(scan.errors@.len())
                + " bundle(s) failed to load:"@
            &&& text[k + 2 * i] == "    "@ + scan.errors@[i].0@
            &&& text[k + 2 * i + 1] == "        "@ + scan.errors@[i].1@
        }),
{
    let errors = discover::error_views(scan.errors@);
    let bundles = all_bundle_lines(scan.bundles@);
    let text = scan_text(scan);
    lemma_error_stands(errors, i);
    let k: int = bundles.len() as int + 2;
    assert(text[k + 2 * i] == all_error_lines(errors)[2 * i]);
    assert(text[k + 2 * i + 1] == all_error_lines(errors)[2 * i + 1]);
    k
}

/// Behind a scan that found or tried anything stands how many bundles and plugins there
/// are, and how many bundles did not load where there are any of those.
pub proof fn law_scan_ends_in_its_numbers(scan: ScanResult)
    requires
        scan.bundles@.len() > 0 || scan.errors@.len() > 0,
    ensures
        ({
            let bundles = text::decimal_text(scan.bundles@.len());
            let plugins = text::decimal_text(plugin_count(scan.bundles@));
            let found = "Summary: "@ + bundles + " bundle(s), "@ + plugins + " plugin(s)"@;
            &&& scan_text(scan).len() >= 2
            &&& scan_text(scan)[scan_text(scan).len() - 2] == Seq::<char>::empty()
            &&& scan.errors@.len() == 0 ==> scan_text(scan).last() == found
            &&& scan.errors@.len() > 0 ==> scan_text(scan).last() == found + (", "@
                + text::decimal_text(scan.errors@.len()) + " failed"@)
        }),
{
    let bundles = text::decimal_text(scan.bundles@.len());
    let plugins = text::decimal_text(plugin_count(scan.bundles@));
    let found = "Summary: "@ + bundles + " bundle(s), "@ + plugins + " plugin(s)"@;
    assert(found + Seq::<char>::empty() =~= found);
    assert(scan_text(scan).last() == summary_line(scan));
}

/// Where nothing was found and nothing failed, the text says so and asks for bundles.
pub proof fn law_empty_scan_says_so(scan: ScanResult)
    ensures
        (scan.bundles@.len() == 0 && scan.errors@.len() == 0) ==> scan_text(scan).len() == 2
            && scan_text(scan)[0] == "No .clap bundles found."@,
        (scan.bundles@.len() > 0 || scan.errors@.len() > 0) ==> scan_text(scan).last()
            == summary_line(scan),
{
}

/// Lists that are set behind one another are shown with a comma between them; one text
/// is shown as it is.
pub proof fn law_commas_stand_between(a: Seq<Seq<char>>, b: Seq<Seq<char>>)
    ensures
        a.len() == 1 ==> comma_joined(a) == a[0],
        a.len() == 0 ==> comma_joined(a).len() == 0,
        a.len() > 0 && b.len() > 0 ==> comma_joined(a + b) == comma_joined(a) + ", "@
            + comma_joined(b),
    decreases b.len(),
{
    if a.len() > 0 && b.len() == 1 {
        assert((a + b).drop_last() =~= a);
    } else if a.len() > 0 && b.len() > 1 {
        law_commas_stand_between(a, b.drop_last());
        assert((a + b).drop_last() =~= a + b.drop_last());
        assert(comma_joined(a + b) =~= comma_joined(a) + ", "@ + comma_joined(b));
    }
}

/// The line out of which a plugin is chosen shows the number to type, the name, the
/// vendor and the file of the bundle.
pub proof fn law_choice_shows_the_plugin(
    i: nat,
    dirs: Seq<Seq<char>>,
    file: Seq<char>,
    d: PluginDescriptor,
)
    requires
        forall|j: int| 0 <= j < dirs.len() ==> paths::is_plain_part(#[trigger] dirs[j]),
        paths::is_plain_part(file),
        file != seq!['.', '.'],
    ensures
        choice_text(i, paths::each_behind_a_slash(dirs.push(file)), d) == "  ["@
            + text::decimal_text(i) + "] "@ + d.name@ + " — "@ + d.vendor@ + "  ("@ + file + ")"@,
{
    paths::law_path_leads_from_its_directory_to_its_file(dirs, file);
}

} // verus!
