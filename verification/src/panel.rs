//! The badge that marks a monitor: its label, its place, and the colours of its pixels.
use vstd::prelude::*;
use vstd::string::{StrSliceExecFns, StringExecFns};
use crate::text::{chars_of, text_at};
use crate::types::MonitorInfo;

verus! {

/// The position of the last occurrence of `needle` in `hay` that starts before `n` (-1 for
/// none).
pub open spec fn last_text_pos(hay: Seq<char>, needle: Seq<char>, n: int) -> int
    decreases n,
{
    if n <= 0 {
        -1
    } else if text_at(hay, needle, n - 1) {
        n - 1
    } else {
        last_text_pos(hay, needle, n - 1)
    }
}

/// What follows the last "DISPLAY" in a monitor's device name (all of it when there is
/// none), as `rsplit("DISPLAY").next()` gives it.
pub open spec fn monitor_number_of(name: Seq<char>) -> Seq<char> {
    let k = last_text_pos(name, "DISPLAY"@, name.len() as int);
    if k < 0 {
        name
    } else {
        name.subrange(k + 7, name.len() as int)
    }
}

/// What follows the last "DISPLAY" in a monitor's device name (all of it when there is none).
pub fn monitor_number(name: &str) -> (r: String)
    ensures
        r@ == monitor_number_of(name@),
{
    proof {
        reveal_strlit("DISPLAY");
    }
    let c = chars_of(name);
    let pat = chars_of("DISPLAY");
    let mut n: usize = c.len();
    while n > 0
        invariant
            c@ == name@,
            pat@ == "DISPLAY"@,
            pat@.len() == 7,
            n <= c@.len(),
            last_text_pos(name@, "DISPLAY"@, name@.len() as int) == last_text_pos(name@, "DISPLAY"@, n as int),
        decreases n,
    {
        let k = n - 1;
        if c.len() - k >= 7 {
            let mut m: usize = 0;
            let mut same = true;
            while m < 7
                invariant
                    c@ == name@,
                    pat@ == "DISPLAY"@,
                    pat@.len() == 7,
                    k + 7 <= c@.len(),
                    c@.len() <= usize::MAX,
                    m <= 7,
                    same <==> forall|q: int| 0 <= q < m ==> c@[k + q] == pat@[q],
                decreases 7 - m,
            {
                assert(k + m < c@.len());
                if c[k + m] != pat[m] {
                    same = false;
                }
                m = m + 1;
            }
            proof {
                if same {
                    assert(name@.subrange(k as int, k + 7) =~= "DISPLAY"@);
                } else {
                    let q = choose|q: int| 0 <= q < 7 && c@[k + q] != pat@[q];
                    assert(name@.subrange(k as int, k + 7)[q] != "DISPLAY"@[q]);
                }
            }
            if same {
                return String::from_str(name.substring_char(k + 7, c.len()));
            }
        }
        n = n - 1;
    }
    String::from_str(name)
}

/// The badge label of a monitor: "显示器 {number}", with " (主)" for the primary monitor.
pub open spec fn monitor_label_of(name: Seq<char>, is_primary: bool) -> Seq<char> {
    if is_primary {
        "显示器 "@ + monitor_number_of(name) + " (主)"@
    } else {
        "显示器 "@ + monitor_number_of(name)
    }
}

/// The badge label of a monitor.
pub fn monitor_label(name: &str, is_primary: bool) -> (r: String)
    ensures
        r@ == monitor_label_of(name@, is_primary),
{
    let number = monitor_number(name);
    let mut s = String::from_str("显示器 ");
    s.append(number.as_str());
    if is_primary {
        s.append(" (主)");
    }
    s
}

/// How far the badge stands from the top-left corner of the work area, in pixels.
pub const BADGE_MARGIN: i32 = 24;

/// The badge's width, in pixels.
pub const BADGE_WIDTH: i32 = 200;

/// The badge's height, in pixels.
pub const BADGE_HEIGHT: i32 = 64;

/// The index of the first monitor of id `id`, from `k` on (-1 for none).
pub open spec fn monitor_index_from(monitors: Seq<MonitorInfo>, id: i64, k: int) -> int
    decreases monitors.len() - k,
{
    if k < 0 || k >= monitors.len() {
        -1
    } else if monitors[k].id.0 == id {
        k
    } else {
        monitor_index_from(monitors, id, k + 1)
    }
}

proof fn lemma_monitor_index_from(monitors: Seq<MonitorInfo>, id: i64, k: int)
    requires
        0 <= k,
    ensures
        monitor_index_from(monitors, id, k) == -1 || k <= monitor_index_from(monitors, id, k) < monitors.len(),
    decreases monitors.len() - k,
{
    if k < monitors.len() {
        lemma_monitor_index_from(monitors, id, k + 1);
    }
}

/// Where and what the badge of a monitor shows.
#[derive(Debug, Clone)]
pub struct BadgePlan {
    pub label: String,
    pub x: i32,
    pub y: i32,
}

/// The badge of monitor `monitor_id`: its label, at the top-left corner of the work area
/// moved in by the margin; `None` when no monitor has that id.
pub fn badge_plan(monitors: &Vec<MonitorInfo>, monitor_id: i64) -> (r: Option<BadgePlan>)
    requires
        ({
            let k = monitor_index_from(monitors@, monitor_id, 0);
            k >= 0 ==> monitors@[k].rect.work_left + BADGE_MARGIN <= i32::MAX && monitors@[k].rect.work_top
                + BADGE_MARGIN <= i32::MAX
        }),
    ensures
        ({
            let k = monitor_index_from(monitors@, monitor_id, 0);
            &&& k < 0 ==> r is None
            &&& k >= 0 ==> (r matches Some(b) && b.label@ == monitor_label_of(monitors@[k].name@, monitors@[k].is_primary)
                && b.x == monitors@[k].rect.work_left + BADGE_MARGIN && b.y == monitors@[k].rect.work_top + BADGE_MARGIN)
        }),
{
    proof {
        lemma_monitor_index_from(monitors@, monitor_id, 0);
    }
    let mut k: usize = 0;
    while k < monitors.len()
        invariant
            k <= monitors@.len(),
            monitor_index_from(monitors@, monitor_id, 0) == monitor_index_from(monitors@, monitor_id, k as int),
            ({
                let q = monitor_index_from(monitors@, monitor_id, 0);
                q >= 0 ==> monitors@[q].rect.work_left + BADGE_MARGIN <= i32::MAX && monitors@[q].rect.work_top
                    + BADGE_MARGIN <= i32::MAX
            }),
        decreases monitors.len() - k,
    {
        if monitors[k].id.0 == monitor_id {
            let m = &monitors[k];
            let label = monitor_label(m.name.as_str(), m.is_primary);
            return Some(BadgePlan { label, x: m.rect.work_left + BADGE_MARGIN, y: m.rect.work_top + BADGE_MARGIN });
        }
        k = k + 1;
    }
    None
}

/// The badge's background colour channel value (red, green and blue alike).
pub const BADGE_BG: u32 = 0x1B;

/// The distance of a channel value from the background's.
pub open spec fn channel_diff(v: int) -> int {
    if v > BADGE_BG {
        v - BADGE_BG
    } else {
        BADGE_BG - v
    }
}

/// A badge pixel after drawing, with its alpha set: opaque where its colour differs from the
/// background by more than 30 in all, else the background's alpha (0xE6); its channels are
/// premultiplied by that alpha, and the first and third channel bytes trade places.
pub open spec fn badge_pixel_of(p: u32) -> u32 {
    let r = (p / 65536) % 256;
    let g = (p / 256) % 256;
    let b = p % 256;
    let alpha: int = if channel_diff(r as int) + channel_diff(g as int) + channel_diff(b as int) > 30 {
        255
    } else {
        0xE6
    };
    (alpha * 16777216 + (b * alpha / 255) * 65536 + (g * alpha / 255) * 256 + r * alpha / 255) as u32
}

proof fn lemma_premultiplied(v: int, alpha: int)
    requires
        0 <= v < 256,
        0 <= alpha <= 255,
    ensures
        0 <= v * alpha / 255 < 256,
{
    assert(v * alpha <= 255 * 255) by (nonlinear_arith)
        requires
            0 <= v < 256,
            0 <= alpha <= 255,
    ;
    assert(0 <= v * alpha) by (nonlinear_arith)
        requires
            0 <= v,
            0 <= alpha,
    ;
}

/// A badge pixel after drawing, with its alpha set and premultiplied.
pub fn badge_pixel(p: u32) -> (r: u32)
    ensures
        r == badge_pixel_of(p),
{
    let r = (p / 65536) % 256;
    let g = (p / 256) % 256;
    let b = p % 256;
    let diff_r = if r > BADGE_BG { r - BADGE_BG } else { BADGE_BG - r };
    let diff_g = if g > BADGE_BG { g - BADGE_BG } else { BADGE_BG - g };
    let diff_b = if b > BADGE_BG { b - BADGE_BG } else { BADGE_BG - b };
    let total_diff = diff_r + diff_g + diff_b;
    let alpha: u32 = if total_diff > 30 { 255 } else { 0xE6 };
    proof {
        lemma_premultiplied(r as int, alpha as int);
        lemma_premultiplied(g as int, alpha as int);
        lemma_premultiplied(b as int, alpha as int);
    }
    let pre_r = r * alpha / 255;
    let pre_g = g * alpha / 255;
    let pre_b = b * alpha / 255;
    alpha * 16777216 + pre_b * 65536 + pre_g * 256 + pre_r
}

} // verus!
