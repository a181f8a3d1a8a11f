//! What the images and the bundle of a process tell of how it takes input.

use vstd::prelude::*;

use crate::strings::{contains, contains_text, is_at, stands_at};
use crate::unicode::{ascii_lower_all, chars_of, lower_chars, same_chars};

verus! {

/// How many regions of a process are looked at.
pub const MAX_REGIONS: usize = 65_536;

fn part_at(text: &[char], part: &str, i: usize) -> (r: bool)
    requires
        i <= text@.len(),
    ensures
        r == stands_at(text@, part@, i as int),
{
    let chars = chars_of(part);
    is_at(text, chars.as_slice(), i)
}

fn is_exactly(text: &str, other: &str) -> (r: bool)
    ensures
        r == (text@ == other@),
{
    let a = chars_of(text);
    let b = chars_of(other);
    same_chars(a.as_slice(), b.as_slice())
}

/// The text ends with the part.
pub open spec fn ends_with(text: Seq<char>, part: Seq<char>) -> bool {
    text.len() >= part.len() && text.skip(text.len() - part.len()) == part
}

fn has_end(text: &[char], part: &str) -> (r: bool)
    ensures
        r == ends_with(text@, part@),
{
    let chars = chars_of(part);
    if text.len() < chars.len() {
        return false;
    }
    let k: usize = text.len() - chars.len();
    let tail: &[char] = &text[k..text.len()];
    assert(tail@ =~= text@.skip(k as int));
    same_chars(tail, chars.as_slice())
}

/// Behind the last slash of the first `k` characters.
pub open spec fn after_slash(path: Seq<char>, k: int) -> int
    decreases k,
{
    if k <= 0 {
        0
    } else if path[k - 1] == '/' {
        k
    } else {
        after_slash(path, k - 1)
    }
}

/// The character is a digit of ASCII.
pub open spec fn ascii_digit(c: char) -> bool {
    '0' <= c && c <= '9'
}

/// The first character from `i` on that is no digit.
pub open spec fn digits_end(text: Seq<char>, i: int) -> int
    decreases text.len() - i,
{
    if i < 0 || i >= text.len() || !ascii_digit(text[i]) {
        i
    } else {
        digits_end(text, i + 1)
    }
}

/// The letters `tk` and a version stand at `i`.
pub open spec fn tk_version_at(stem: Seq<char>, i: int) -> bool {
    stands_at(stem, "tk"@, i) && i + 2 < stem.len() && ascii_digit(stem[i + 2])
}

/// The name of a Tk library between `lib` and `.dylib`: a Tcl version may stand
/// before Tk's.
pub open spec fn tk_stem(stem: Seq<char>) -> bool {
    if stands_at(stem, "tcl"@, 0) {
        let end = digits_end(stem, 3);
        end > 3 && tk_version_at(stem, end)
    } else {
        tk_version_at(stem, 0)
    }
}

/// The file is a Tk library or Python's binding to it; the name is in lower case.
pub open spec fn tk_file(file: Seq<char>) -> bool {
    ||| ends_with(file, ".so"@) && stands_at(file.take(file.len() - ".so"@.len()), "_tkinter"@, 0)
    ||| ends_with(file, ".dylib"@) && {
        let name = file.take(file.len() - ".dylib"@.len());
        stands_at(name, "lib"@, 0) && tk_stem(name.skip("lib"@.len() as int))
    }
}

/// The path is that of an image of Tk.
pub open spec fn tk_image(path: Seq<char>) -> bool {
    ||| contains_text(path, "/Tk.framework/"@)
    ||| tk_file(ascii_lower_all(path.skip(after_slash(path, path.len() as int))))
}

fn is_digit(c: char) -> (r: bool)
    ensures
        r == ascii_digit(c),
{
    '0' <= c && c <= '9'
}

fn version_at(stem: &[char], i: usize) -> (r: bool)
    requires
        i <= stem@.len(),
    ensures
        r == tk_version_at(stem@, i as int),
{
    proof {
        reveal_strlit("tk");
    }
    part_at(stem, "tk", i) && stem.len() - i > 2 && is_digit(stem[i + 2])
}

fn is_tk_stem(stem: &[char]) -> (r: bool)
    ensures
        r == tk_stem(stem@),
{
    proof {
        reveal_strlit("tcl");
    }
    if part_at(stem, "tcl", 0) {
        let n: usize = stem.len();
        let mut end: usize = 3;
        while end < n && is_digit(stem[end])
            invariant
                n == stem@.len(),
                3 <= end <= n,
                digits_end(stem@, 3) == digits_end(stem@, end as int),
            decreases n - end,
        {
            end = end + 1;
        }
        end > 3 && version_at(stem, end)
    } else {
        version_at(stem, 0)
    }
}

fn is_tk_file(file: &[char]) -> (r: bool)
    ensures
        r == tk_file(file@),
{
    proof {
        reveal_strlit(".so");
        reveal_strlit(".dylib");
        reveal_strlit("lib");
    }
    if has_end(file, ".so") {
        let stem: &[char] = &file[0..file.len() - 3];
        assert(stem@ =~= file@.take(file@.len() - 3));
        if part_at(stem, "_tkinter", 0) {
            return true;
        }
    }
    if !has_end(file, ".dylib") {
        return false;
    }
    let name: &[char] = &file[0..file.len() - 6];
    assert(name@ =~= file@.take(file@.len() - 6));
    if !part_at(name, "lib", 0) {
        return false;
    }
    let stem: &[char] = &name[3..name.len()];
    assert(stem@ =~= name@.skip(3));
    is_tk_stem(stem)
}

/// Whether a path is that of an image of Tk: its framework, its libraries, or
/// Python's binding to them.
pub fn is_tk_image(path: &str) -> (r: bool)
    ensures
        r == tk_image(path@),
{
    let chars = chars_of(path);
    let framework = chars_of("/Tk.framework/");
    if contains(chars.as_slice(), framework.as_slice()) {
        return true;
    }
    let mut k: usize = chars.len();
    while k > 0 && chars[k - 1] != '/'
        invariant
            chars@ == path@,
            k <= chars@.len(),
            after_slash(path@, path@.len() as int) == after_slash(path@, k as int),
        decreases k,
    {
        k = k - 1;
    }
    let file: &[char] = &chars[k..chars.len()];
    assert(file@ =~= path@.skip(k as int));
    let lower = lower_chars(file);
    is_tk_file(lower.as_slice())
}

/// What to do after a region of a process.
#[derive(Clone, Copy, Debug, PartialEq, Eq, Structural)]
pub enum Region {
    /// It maps Tk.
    Found,
    /// There is nothing more to look at.
    End,
    /// Look at the region from this address on.
    Next(u64),
}

/// Decides what to do after the region that was found from `address` on; a walk
/// that does not go on ends.
pub fn after_region(address: u64, tk: bool, region_address: u64, region_size: u64, seen: usize) -> (r:
    Region)
    ensures
        r == (if tk {
            Region::Found
        } else {
            let next = if region_address + region_size > u64::MAX {
                u64::MAX as int
            } else {
                region_address + region_size
            };
            if next <= address || seen >= MAX_REGIONS {
                Region::End
            } else {
                Region::Next(next as u64)
            }
        }),
{
    if tk {
        return Region::Found;
    }
    let next: u64 = match region_address.checked_add(region_size) {
        Some(v) => v,
        None => u64::MAX,
    };
    if next <= address || seen >= MAX_REGIONS {
        Region::End
    } else {
        Region::Next(next)
    }
}

/// Which regions of a process a walk is asked for.
#[derive(Clone, Copy, Debug, PartialEq, Eq, Structural)]
pub enum Flavor {
    /// Those that a file backs.
    FileBacked,
    /// Every one.
    Every,
}

/// What a walk over the regions of a process comes to.
#[derive(Clone, Copy, Debug, PartialEq, Eq, Structural)]
pub enum Walked {
    /// Whether the process reads the hardware pointer.
    Answer(bool),
    /// The kernel does not know the flavor: walk once more.
    Again(Flavor),
}

/// Decides what a walk comes to: whether it found Tk, and whether it could read
/// any region at all. A kernel that refuses both flavors says nothing, which
/// counts as no.
pub fn after_walk(flavor: Flavor, found: bool, read_any: bool) -> (r: Walked)
    ensures
        r == (if found {
            Walked::Answer(true)
        } else if !read_any && flavor == Flavor::FileBacked {
            Walked::Again(Flavor::Every)
        } else {
            Walked::Answer(false)
        }),
{
    if found {
        return Walked::Answer(true);
    }
    match flavor {
        Flavor::FileBacked => if read_any {
            Walked::Answer(false)
        } else {
            Walked::Again(Flavor::Every)
        },
        Flavor::Every => Walked::Answer(false),
    }
}

/// The bundle is the base or one of its variants, set off by a dot.
pub open spec fn variant_of(bundle: Seq<char>, base: Seq<char>) -> bool {
    bundle == base || (stands_at(bundle, base, 0) && bundle.len() > base.len()
        && bundle[base.len() as int] == '.')
}

fn is_variant(bundle: &str, base: &str) -> (r: bool)
    ensures
        r == variant_of(bundle@, base@),
{
    let a = chars_of(bundle);
    let b = chars_of(base);
    same_chars(a.as_slice(), b.as_slice()) || (is_at(a.as_slice(), b.as_slice(), 0) && a.len()
        > b.len() && a[b.len()] == '.')
}

/// The bundle is a browser's that is built on Chromium.
pub open spec fn chromium_bundle(bundle: Seq<char>) -> bool {
    ||| variant_of(bundle, "com.google.Chrome"@)
    ||| variant_of(bundle, "org.chromium.Chromium"@)
    ||| variant_of(bundle, "com.brave.Browser"@)
    ||| variant_of(bundle, "com.microsoft.edgemac"@)
    ||| variant_of(bundle, "company.thebrowser.Browser"@)
    ||| variant_of(bundle, "com.vivaldi.Vivaldi"@)
    ||| variant_of(bundle, "com.operasoftware.Opera"@)
}

/// Whether the bundle is a browser's that is built on Chromium.
pub fn is_chromium_bundle(bundle: &str) -> (r: bool)
    ensures
        r == chromium_bundle(bundle@),
{
    is_variant(bundle, "com.google.Chrome")
        || is_variant(bundle, "org.chromium.Chromium")
        || is_variant(bundle, "com.brave.Browser")
        || is_variant(bundle, "com.microsoft.edgemac")
        || is_variant(bundle, "company.thebrowser.Browser")
        || is_variant(bundle, "com.vivaldi.Vivaldi")
        || is_variant(bundle, "com.operasoftware.Opera")
}

/// Whether the bundle is the client that relays keys to another machine.
pub fn is_screen_sharing(bundle: &str) -> (r: bool)
    ensures
        r == (bundle@ == "com.apple.ScreenSharing"@),
{
    is_exactly(bundle, "com.apple.ScreenSharing")
}

/// The bundle is a terminal's.
pub open spec fn terminal_bundle(bundle: Seq<char>) -> bool {
    ||| bundle == "co.zeit.hyper"@
    ||| bundle == "com.apple.Terminal"@
    ||| bundle == "com.github.wez.wezterm"@
    ||| bundle == "com.googlecode.iterm2"@
    ||| bundle == "com.mitchellh.ghostty"@
    ||| bundle == "dev.warp.Warp-Stable"@
    ||| bundle == "dev.zed.Zed.Helper"@
    ||| bundle == "io.alacritty"@
    ||| bundle == "net.kovidgoyal.kitty"@
    ||| bundle == "org.alacritty"@
}

/// Whether the bundle is a terminal's: what it shows is not what it reads.
pub fn is_terminal(bundle: &str) -> (r: bool)
    ensures
        r == terminal_bundle(bundle@),
{
    is_exactly(bundle, "co.zeit.hyper")
        || is_exactly(bundle, "com.apple.Terminal")
        || is_exactly(bundle, "com.github.wez.wezterm")
        || is_exactly(bundle, "com.googlecode.iterm2")
        || is_exactly(bundle, "com.mitchellh.ghostty")
        || is_exactly(bundle, "dev.warp.Warp-Stable")
        || is_exactly(bundle, "dev.zed.Zed.Helper")
        || is_exactly(bundle, "io.alacritty")
        || is_exactly(bundle, "net.kovidgoyal.kitty")
        || is_exactly(bundle, "org.alacritty")
}

} // verus!
