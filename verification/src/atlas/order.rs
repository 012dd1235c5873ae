//! The order in which sprites are packed: by the perimeter of their own
//! pixels, smallest first, keeping the given order among equals.

use vstd::prelude::*;

verus! {

/// A source image of an atlas sprite, decoded to RGBA, four bytes a pixel.
#[derive(Debug)]
pub struct SpriteSource {
    /// The sprite's lookup key.
    pub name: String,
    /// Width of the image in pixels.
    pub width: u32,
    /// Height of the image in pixels.
    pub height: u32,
    /// Whether the image carries nine-slice guides: a guide row on top and a
    /// guide column on the left.
    pub guided: bool,
    /// The pixels, row after row.
    pub pixels: Vec<u8>,
}

impl SpriteSource {
    /// The pixel buffer holds exactly the image.
    pub open spec fn wf(&self) -> bool {
        self.pixels@.len() == self.width * self.height * 4
    }
}

/// `a - b`, or 0 where `b > a`.
pub open spec fn sat_sub(a: int, b: int) -> int {
    if a < b {
        0
    } else {
        a - b
    }
}

/// Twice the sum of the sides of a sprite's image; two pixels less on each
/// side for an image with nine-slice guides.
pub open spec fn perimeter_key(width: u32, height: u32, guided: bool) -> int {
    if guided {
        2 * (sat_sub(width as int, 2) + sat_sub(height as int, 2))
    } else {
        2 * (width + height)
    }
}

/// The packing key of a sprite.
pub open spec fn sprite_key(s: SpriteSource) -> int {
    perimeter_key(s.width, s.height, s.guided)
}

/// The packing key of a sprite: twice the sum of its sides, two pixels less on
/// each side where it carries nine-slice guides.
pub fn sort_key(width: u32, height: u32, guided: bool) -> (r: u32)
    requires
        2 * (width + height) <= u32::MAX,
    ensures
        r == perimeter_key(width, height, guided),
{
    let (x, y) = if guided {
        (width.saturating_sub(2), height.saturating_sub(2))
    } else {
        (width, height)
    };
    2 * (x + y)
}

/// Where a sprite of key `k` goes in `s`: after the last element, counting
/// from the end, whose key is not larger.
pub open spec fn insertion_point(s: Seq<SpriteSource>, k: int) -> nat
    decreases s.len(),
{
    if s.len() == 0 {
        0
    } else if sprite_key(s.last()) <= k {
        s.len()
    } else {
        insertion_point(s.drop_last(), k)
    }
}

/// `s` ordered by key, smallest first; sprites of equal keys keep their order.
pub open spec fn stable_sorted(s: Seq<SpriteSource>) -> Seq<SpriteSource>
    decreases s.len(),
{
    if s.len() == 0 {
        Seq::empty()
    } else {
        let rest = stable_sorted(s.drop_last());
        rest.insert(insertion_point(rest, sprite_key(s.last())) as int, s.last())
    }
}

/// Keys never decrease along `s`.
pub open spec fn keys_ascending(s: Seq<SpriteSource>) -> bool {
    forall|i: int, j: int| 0 <= i <= j < s.len() ==> sprite_key(s[i]) <= sprite_key(s[j])
}

proof fn lemma_insertion_point_bound(s: Seq<SpriteSource>, k: int)
    ensures
        insertion_point(s, k) <= s.len(),
        forall|i: int| insertion_point(s, k) <= i < s.len() ==> sprite_key(#[trigger] s[i]) > k,
    decreases s.len(),
{
    if s.len() > 0 && sprite_key(s.last()) > k {
        let dl = s.drop_last();
        lemma_insertion_point_bound(dl, k);
        assert forall|i: int| insertion_point(s, k) <= i < s.len() implies sprite_key(
            #[trigger] s[i],
        ) > k by {
            if i < s.len() - 1 {
                assert(s[i] == dl[i]);
            }
        }
    }
}

/// For keys in ascending order, everything before the insertion point has a
/// key no larger than `k`.
proof fn lemma_insertion_point_sorted(s: Seq<SpriteSource>, k: int)
    requires
        keys_ascending(s),
    ensures
        forall|i: int| 0 <= i < insertion_point(s, k) ==> sprite_key(#[trigger] s[i]) <= k,
    decreases s.len(),
{
    if s.len() > 0 {
        if sprite_key(s.last()) <= k {
            assert forall|i: int| 0 <= i < insertion_point(s, k) implies sprite_key(
                #[trigger] s[i],
            ) <= k by {
                assert(sprite_key(s[i]) <= sprite_key(s[s.len() - 1]));
            }
        } else {
            let dl = s.drop_last();
            assert forall|i: int, j: int| 0 <= i <= j < dl.len() implies sprite_key(dl[i])
                <= sprite_key(dl[j]) by {
                assert(dl[i] == s[i]);
                assert(dl[j] == s[j]);
            }
            lemma_insertion_point_sorted(dl, k);
            assert forall|i: int| 0 <= i < insertion_point(s, k) implies sprite_key(
                #[trigger] s[i],
            ) <= k by {
                assert(s[i] == dl[i]);
            }
        }
    }
}

/// The stable order has keys in ascending order and holds the same sprites.
pub proof fn lemma_stable_sorted(s: Seq<SpriteSource>)
    ensures
        keys_ascending(stable_sorted(s)),
        stable_sorted(s).to_multiset() == s.to_multiset(),
        stable_sorted(s).len() == s.len(),
    decreases s.len(),
{
    if s.len() > 0 {
        let rest = stable_sorted(s.drop_last());
        lemma_stable_sorted(s.drop_last());
        let k = sprite_key(s.last());
        let p = insertion_point(rest, k);
        lemma_insertion_point_bound(rest, k);
        lemma_insertion_point_sorted(rest, k);
        let r = rest.insert(p as int, s.last());
        assert forall|i: int, j: int| 0 <= i <= j < r.len() implies sprite_key(r[i]) <= sprite_key(
            r[j],
        ) by {
            if i < p && j > p {
                assert(r[i] == rest[i]);
                assert(r[j] == rest[j - 1]);
            } else if i < p && j == p {
                assert(r[i] == rest[i]);
            } else if i == p && j > p {
                assert(r[j] == rest[j - 1]);
            } else if j < p {
                assert(r[i] == rest[i]);
                assert(r[j] == rest[j]);
            } else if i > p {
                assert(r[i] == rest[i - 1]);
                assert(r[j] == rest[j - 1]);
            }
        }
        vstd::seq_lib::to_multiset_insert(rest, p as int, s.last());
        assert(s =~= s.drop_last().push(s.last()));
        vstd::seq_lib::to_multiset_build(s.drop_last(), s.last());
        assert(stable_sorted(s) == r);
        assert(r.to_multiset() == rest.to_multiset().insert(s.last()));
        assert(s.to_multiset() == s.drop_last().to_multiset().insert(s.last()));
    } else {
        assert(stable_sorted(s) =~= s);
    }
}

/// The size bound under which a sprite's key can be computed.
pub open spec fn key_fits(s: SpriteSource) -> bool {
    2 * (s.width + s.height) <= u32::MAX
}

/// Orders sprites by [`sort_key`], smallest first, keeping the given order
/// among sprites of equal keys.
pub fn sort_by_key(sprites: Vec<SpriteSource>) -> (r: Vec<SpriteSource>)
    requires
        forall|i: int| 0 <= i < sprites@.len() ==> key_fits(#[trigger] sprites@[i]),
    ensures
        r@ == stable_sorted(sprites@),
{
    let ghost input = sprites@;
    let n = sprites.len();
    let mut pending = sprites;
    let mut stack: Vec<SpriteSource> = Vec::new();
    while pending.len() > 0
        invariant
            stack@ + pending@.reverse() == input.reverse(),
        decreases pending@.len(),
    {
        let ghost before = pending@;
        let x = pending.pop().unwrap();
        stack.push(x);
        proof {
            assert(before == pending@.push(x));
            assert(before.reverse() =~= seq![x] + pending@.reverse());
            assert(stack@ + pending@.reverse() =~= input.reverse());
        }
    }
    proof {
        assert(stack@ =~= input.reverse());
    }
    let mut out: Vec<SpriteSource> = Vec::new();
    let mut done: usize = 0;
    while stack.len() > 0
        invariant
            n == input.len(),
            done + stack@.len() == n,
            stack@ == input.subrange(done as int, n as int).reverse(),
            out@ == stable_sorted(input.subrange(0, done as int)),
            forall|i: int| 0 <= i < input.len() ==> key_fits(#[trigger] input[i]),
            forall|i: int| 0 <= i < out@.len() ==> key_fits(#[trigger] out@[i]),
        decreases stack@.len(),
    {
        let ghost before = stack@;
        let x = stack.pop().unwrap();
        proof {
            assert(x == before.last());
            assert(before.last() == input[done as int]);
            assert(stack@ =~= input.subrange(done + 1, n as int).reverse());
        }
        let k = sort_key(x.width, x.height, x.guided);
        let mut j = out.len();
        proof {
            assert(out@.subrange(0, j as int) =~= out@);
        }
        while j > 0 && sort_key(out[j - 1].width, out[j - 1].height, out[j - 1].guided) > k
            invariant
                j <= out@.len(),
                k == sprite_key(x),
                forall|i: int| 0 <= i < out@.len() ==> key_fits(#[trigger] out@[i]),
                insertion_point(out@, k as int) == insertion_point(out@.subrange(0, j as int), k as int),
            decreases j,
        {
            proof {
                let s = out@.subrange(0, j as int);
                assert(s.drop_last() =~= out@.subrange(0, j - 1));
                assert(s.last() == out@[j - 1]);
            }
            j = j - 1;
        }
        proof {
            let s = out@.subrange(0, j as int);
            if j > 0 {
                assert(s.last() == out@[j - 1]);
            }
            assert(insertion_point(s, k as int) == j);
            let pre = input.subrange(0, done + 1);
            assert(pre.drop_last() =~= input.subrange(0, done as int));
            assert(pre.last() == x);
        }
        out.insert(j, x);
        done = done + 1;
        proof {
            assert forall|i: int| 0 <= i < out@.len() implies key_fits(#[trigger] out@[i]) by {
                if i == j {
                    assert(out@[i] == input[done - 1]);
                }
            }
        }
    }
    proof {
        assert(input.subrange(0, n as int) =~= input);
    }
    out
}

} // verus!
