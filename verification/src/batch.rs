//! Several images at once: the windows in which they are read, and the answer for
//! each.

use crate::codec::decode_rgb;
use crate::float::F32;
use crate::resize::ImageRgb;
use crate::values;
use vstd::prelude::*;
use vstd::string::*;

verus! {

/// Where window `k` of `size` images starts.
pub open spec fn window_start(size: int, k: int) -> int {
    k * size
}

/// Where it ends, among `n` images.
pub open spec fn window_end(n: int, size: int, k: int) -> int {
    if (k + 1) * size < n {
        (k + 1) * size
    } else {
        n
    }
}

/// The windows of `n` images: `size` of them in each, what is left in the last.
pub open spec fn are_windows(r: Seq<(usize, usize)>, n: int, size: int) -> bool {
    &&& (r.len() - 1) * size < n <= r.len() * size
    &&& forall|k: int|
        0 <= k < r.len() ==> (#[trigger] r[k]).0 == window_start(size, k) && r[k].1 == window_end(
            n,
            size,
            k,
        )
}

/// The windows of `n` images, `size` of them in each.
pub fn windows(n: usize, size: usize) -> (r: Vec<(usize, usize)>)
    requires
        size > 0,
    ensures
        n == 0 ==> r@.len() == 0,
        n > 0 ==> are_windows(r@, n as int, size as int),
{
    let mut out: Vec<(usize, usize)> = Vec::new();
    let mut at: usize = 0;
    proof {
        assert(0 * size == 0) by (nonlinear_arith);
    }
    while at < n
        invariant
            size > 0,
            n == 0 ==> out@.len() == 0,
            at <= n,
            at == if out@.len() * size < n {
                out@.len() * size
            } else {
                n as int
            },
            n > 0 && out@.len() > 0 ==> (out@.len() - 1) * size < n,
            forall|k: int|
                0 <= k < out@.len() ==> (#[trigger] out@[k]).0 == window_start(size as int, k)
                    && out@[k].1 == window_end(n as int, size as int, k),
        decreases n - at,
    {
        let end: usize = if size < n - at {
            at + size
        } else {
            n
        };
        proof {
            let k = out@.len() as int;
            assert((k + 1) * size == k * size + size) by (nonlinear_arith);
        }
        out.push((at, end));
        at = end;
    }
    out
}

/// Every image is in one window: image `i` in window `i / size`.
pub proof fn law_windows_hold_every_image(r: Seq<(usize, usize)>, n: int, size: int, i: int)
    requires
        size > 0,
        are_windows(r, n, size),
        0 <= i < n,
    ensures
        0 <= i / size < r.len(),
        r[i / size].0 <= i < r[i / size].1,
        forall|k: int| 0 <= k < r.len() && (#[trigger] r[k]).0 <= i < r[k].1 ==> k == i / size,
{
    let k = i / size;
    assert(0 <= k && k * size <= i && i < (k + 1) * size) by (nonlinear_arith)
        requires
            k == i / size,
            0 <= i,
            size > 0,
    ;
    assert(k < r.len()) by (nonlinear_arith)
        requires
            k * size <= i,
            i < n,
            n <= r.len() * size,
            size > 0,
    ;
    assert(r[k].0 == window_start(size, k));
    assert forall|j: int| 0 <= j < r.len() && (#[trigger] r[j]).0 <= i < r[j].1 implies j
        == k by {
        assert(j == k) by (nonlinear_arith)
            requires
                j * size <= i,
                i < (j + 1) * size,
                k * size <= i,
                i < (k + 1) * size,
                size > 0,
        ;
    }
}

/// The decimal digits of a number.
pub open spec fn decimal(n: nat) -> Seq<char>
    decreases n,
{
    let digit = ('0' as int + n % 10) as char;
    if n < 10 {
        seq![digit]
    } else {
        decimal(n / 10).push(digit)
    }
}

fn digit(d: usize) -> (r: &'static str)
    requires
        d < 10,
    ensures
        r@ =~= seq![('0' as int + d) as char],
{
    proof {
        reveal_strlit("0");
        reveal_strlit("1");
        reveal_strlit("2");
        reveal_strlit("3");
        reveal_strlit("4");
        reveal_strlit("5");
        reveal_strlit("6");
        reveal_strlit("7");
        reveal_strlit("8");
        reveal_strlit("9");
    }
    match d {
        0 => "0",
        1 => "1",
        2 => "2",
        3 => "3",
        4 => "4",
        5 => "5",
        6 => "6",
        7 => "7",
        8 => "8",
        _ => "9",
    }
}

fn digits(n: usize) -> (r: String)
    ensures
        r@ == decimal(n as nat),
    decreases n,
{
    let mut out: String = if n < 10 {
        String::new()
    } else {
        digits(n / 10)
    };
    out.append(digit(n % 10));
    assert(out@ =~= decimal(n as nat));
    out
}

/// The message of an image that cannot be read: its number among all images of the
/// batch, from zero, and what is wrong with it.
pub open spec fn fault_text(n: nat, message: Seq<char>) -> Seq<char> {
    "image "@ + decimal(n) + ": "@ + message
}

/// The message of image `i` of the window that starts at image `start`.
pub fn image_fault(start: usize, i: usize, message: &str) -> (r: String)
    requires
        start + i <= usize::MAX,
    ensures
        r@ == fault_text((start + i) as nat, message@),
{
    String::from_str("image ").concat(digits(start + i).as_str()).concat(": ").concat(message)
}

/// Reads image `i` of the window that starts at image `start`. Where the decoder
/// refuses it, the error has the image's number and the decoder's message.
pub fn read_image(start: usize, i: usize, bytes: &[u8]) -> (r: Result<ImageRgb, String>)
    requires
        start + i <= usize::MAX,
    ensures
        match r {
            Ok(img) => img.wf() && call_ensures(decode_rgb, (bytes,), Ok(img)),
            Err(e) => exists|message: String| #[trigger]
                call_ensures(decode_rgb, (bytes,), Err(message)) && e@ == fault_text(
                    (start + i) as nat,
                    message@,
                ),
        },
{
    match decode_rgb(bytes) {
        Ok(img) => Ok(img),
        Err(message) => Err(image_fault(start, i, message.as_str())),
    }
}

/// One text of a page, with its corners in the image that was read.
pub struct Bound {
    pub top_left: [i32; 2],
    pub bottom_right: [i32; 2],
    pub text: String,
    pub confidence: F32,
}

/// One text of a page as the caller gets it: its number, its corners in the
/// caller's image, the text and its score.
pub type Item = (usize, [i32; 2], [i32; 2], String, F32);

/// The item of a bound, whose corners have been mapped back.
pub open spec fn is_item(item: Item, i: usize, b: Bound, mapped: [i32; 4]) -> bool {
    &&& item.0 == i
    &&& item.1@ == seq![mapped@[0], mapped@[1]]
    &&& item.2@ == seq![mapped@[2], mapped@[3]]
    &&& item.3@ == b.text@
    &&& item.4 == b.confidence
}

/// Left, top, right and bottom of a bound.
pub open spec fn edges(b: Bound) -> [i32; 4] {
    [b.top_left@[0], b.top_left@[1], b.bottom_right@[0], b.bottom_right@[1]]
}

/// The item of bound `i`, its corners mapped back by some outcome of `map_box`.
pub open spec fn is_mapped<F: Fn([i32; 4]) -> [i32; 4]>(
    item: Item,
    bound: (usize, Bound),
    map_box: F,
) -> bool {
    exists|mapped: [i32; 4]| #[trigger]
        call_ensures(map_box, (edges(bound.1),), mapped) && is_item(
            item,
            bound.0,
            bound.1,
            mapped,
        )
}

fn map_item<F: Fn([i32; 4]) -> [i32; 4]>(bound: &(usize, Bound), map_box: &F) -> (r: Item)
    requires
        forall|b: [i32; 4]| #[trigger] call_requires(*map_box, (b,)),
    ensures
        is_mapped(r, *bound, *map_box),
{
    let b: &Bound = &bound.1;
    let e: [i32; 4] = [b.top_left[0], b.top_left[1], b.bottom_right[0], b.bottom_right[1]];
    assert(e == edges(*b));
    let m: [i32; 4] = map_box(e);
    let tl: [i32; 2] = [m[0], m[1]];
    let br: [i32; 2] = [m[2], m[3]];
    let item: Item = (bound.0, tl, br, b.text.clone(), b.confidence);
    proof {
        assert(item.1@ =~= seq![m@[0], m@[1]]);
        assert(item.2@ =~= seq![m@[2], m@[3]]);
        assert(is_item(item, bound.0, bound.1, m));
    }
    item
}

/// The texts of a page for the caller: their corners mapped back to the caller's
/// image, everything else as it is.
pub fn finish_ocr<F: Fn([i32; 4]) -> [i32; 4]>(bounds: &Vec<(usize, Bound)>, map_box: F) -> (r: Vec<
    Item,
>)
    requires
        forall|b: [i32; 4]| #[trigger] call_requires(map_box, (b,)),
    ensures
        r@.len() == bounds@.len(),
        forall|k: int| 0 <= k < r@.len() ==> is_mapped(#[trigger] r@[k], bounds@[k], map_box),
{
    let mut out: Vec<Item> = Vec::new();
    let mut k: usize = 0;
    while k < bounds.len()
        invariant
            k <= bounds@.len(),
            out@.len() == k,
            forall|b: [i32; 4]| #[trigger] call_requires(map_box, (b,)),
            forall|j: int| 0 <= j < k ==> is_mapped(#[trigger] out@[j], bounds@[j], map_box),
        decreases bounds@.len() - k,
    {
        out.push(map_item(&bounds[k], &map_box));
        k = k + 1;
    }
    out
}

proof fn lemma_decimal_reads_back(n: nat)
    ensures
        values::is_number(decimal(n)),
        values::number(decimal(n)) == n,
        n > 0 ==> decimal(n)[0] != '0',
    decreases n,
{
    let digit = ('0' as int + n % 10) as char;
    let s = decimal(n);
    assert(digit as int == '0' as int + n % 10);
    if n < 10 {
        assert(s =~= seq![digit]);
        assert(s.drop_last() =~= Seq::<char>::empty());
        assert(values::number(Seq::<char>::empty()) == 0);
    } else {
        lemma_decimal_reads_back(n / 10);
        assert(s.drop_last() =~= decimal(n / 10));
        assert forall|i: int| 0 <= i < s.len() implies values::is_digit(#[trigger] s[i]) by {
            if i < s.len() - 1 {
                assert(s[i] == decimal(n / 10)[i]);
            }
        }
        assert(s[0] == decimal(n / 10)[0]);
    }
}

/// The message of an image is its number, in digits that read back as that number,
/// between "image " and ": ", and then what is wrong with it.
pub proof fn law_fault_names_the_image(
    start: usize,
    i: usize,
    message: &str,
    r: String,
) -> (digits: Seq<char>)
    requires
        call_ensures(image_fault, (start, i, message), r),
        start + i <= usize::MAX,
    ensures
        r@ == "image "@ + digits + ": "@ + message@,
        values::is_number(digits),
        values::number(digits) == start + i,
        start + i > 0 ==> digits[0] != '0',
{
    lemma_decimal_reads_back((start + i) as nat);
    decimal((start + i) as nat)
}

/// The windows follow one another from the first image to the last, each of `size`
/// images but for the last, which may have fewer.
pub proof fn law_windows_follow_one_another(n: usize, size: usize, r: Vec<(usize, usize)>, k: int)
    requires
        call_ensures(windows, (n, size), r),
        size > 0,
        0 <= k < r@.len(),
    ensures
        r@[0].0 == 0,
        r@[r@.len() - 1].1 == n,
        k + 1 < r@.len() ==> r@[k].1 == r@[k + 1].0 && r@[k].1 - r@[k].0 == size,
        r@[k].0 < r@[k].1,
        r@[k].1 - r@[k].0 <= size,
{
    let (s, m, len) = (size as int, n as int, r@.len() as int);
    assert(are_windows(r@, m, s));
    assert(r@[0].0 == window_start(s, 0) && r@[len - 1].1 == window_end(m, s, len - 1));
    assert(0 * s == 0) by (nonlinear_arith);
    assert(r@[k].0 == k * s && r@[k].1 == window_end(m, s, k));
    assert((k + 1) * s == k * s + s && k * s <= (len - 1) * s && (k + 1 < len ==> (k + 1) * s <= (len
        - 1) * s)) by (nonlinear_arith)
        requires
            0 <= k < len,
            s > 0,
    ;
    if k + 1 < len {
        assert(r@[k + 1].0 == window_start(s, k + 1));
    }
}

/// Without images there is no window.
pub proof fn law_no_images_no_windows(n: usize, size: usize, r: Vec<(usize, usize)>)
    requires
        call_ensures(windows, (n, size), r),
        size > 0,
    ensures
        r@.len() == 0 <==> n == 0,
{
    if n > 0 {
        assert(r@.len() > 0) by {
            if r@.len() == 0 {
                assert(0 * size == 0) by (nonlinear_arith);
            }
        }
    }
}

/// The texts of a page come out one for one: each with its number, its text and its
/// score as they are, and with the corners that `map_box` makes of its corners.
pub proof fn law_texts_are_mapped_back<F: Fn([i32; 4]) -> [i32; 4]>(
    bounds: &Vec<(usize, Bound)>,
    map_box: F,
    r: Vec<Item>,
    k: int,
) -> (mapped: ([i32; 4], [i32; 4]))
    requires
        call_ensures(finish_ocr::<F>, (bounds, map_box), r),
        0 <= k < bounds@.len(),
    ensures
        r@.len() == bounds@.len(),
        r@[k].0 == bounds@[k].0,
        r@[k].3@ == bounds@[k].1.text@,
        r@[k].4 == bounds@[k].1.confidence,
        call_ensures(map_box, (mapped.0,), mapped.1),
        mapped.0@ == bounds@[k].1.top_left@ + bounds@[k].1.bottom_right@,
        mapped.1@ == r@[k].1@ + r@[k].2@,
{
    let b = bounds@[k];
    assert(is_mapped(r@[k], b, map_box));
    let m = choose|m: [i32; 4]| #[trigger]
        call_ensures(map_box, (edges(b.1),), m) && is_item(r@[k], b.0, b.1, m);
    assert(edges(b.1)@ =~= b.1.top_left@ + b.1.bottom_right@);
    assert(m@ =~= r@[k].1@ + r@[k].2@);
    (edges(b.1), m)
}

} // verus!
