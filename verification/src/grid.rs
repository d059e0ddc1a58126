use vstd::prelude::*;

verus! {

/// The counting half of a grid: how many columns and rows it has, and nothing about where they are.
///
/// Rows run north to south and columns west to east from index zero. A row or column index is only
/// meaningful against the shape that has it, which is why the accessors here mint them.
#[derive(Debug, Clone, Copy, PartialEq, Eq, Structural)]
pub struct GridShape {
    width: u32,
    height: u32,
}

/// A grid with no cells: `width` or `height` is zero.
#[derive(Debug, Clone, Copy, PartialEq, Eq, Structural)]
pub struct EmptyDimension {
    pub width: u32,
    pub height: u32,
}

impl GridShape {
    /// The type's invariant, for stating laws over shapes that are not exec values.
    #[verifier::type_invariant]
    pub closed spec fn inv(self) -> bool {
        self.width > 0 && self.height > 0
    }

    pub closed spec fn spec_width(&self) -> u32 {
        self.width
    }

    pub closed spec fn spec_height(&self) -> u32 {
        self.height
    }

    /// # Errors
    /// [`EmptyDimension`] when either dimension is zero.
    pub fn new(width: u32, height: u32) -> (shape: Result<GridShape, EmptyDimension>)
        ensures
            match shape {
                Ok(shape) => width > 0 && height > 0 && shape.spec_width() == width
                    && shape.spec_height() == height && shape.inv(),
                Err(e) => (width == 0 || height == 0) && e == (EmptyDimension { width, height }),
            },
    {
        if width == 0 || height == 0 {
            return Err(EmptyDimension { width, height });
        }
        Ok(GridShape { width, height })
    }

    /// A shape satisfying its invariant has at least one row and one column.
    pub proof fn lemma_has_cells(self)
        requires
            self.inv(),
        ensures
            self.spec_width() > 0,
            self.spec_height() > 0,
    {
    }

    /// Every exec shape satisfies [`Self::inv`].
    pub fn check_inv(&self)
        ensures
            self.inv(),
    {
        proof {
            use_type_invariant(self);
        }
    }

    #[verifier::when_used_as_spec(spec_width)]
    pub fn width(&self) -> (w: u32)
        ensures
            w == self.spec_width(),
            w > 0,
    {
        proof {
            use_type_invariant(self);
        }
        self.width
    }

    #[verifier::when_used_as_spec(spec_height)]
    pub fn height(&self) -> (h: u32)
        ensures
            h == self.spec_height(),
            h > 0,
    {
        proof {
            use_type_invariant(self);
        }
        self.height
    }

    /// The row `index` names, or `None` past the southern edge.
    pub fn row(&self, index: u32) -> (row: Option<u32>)
        ensures
            row == (if index < self.spec_height() { Some(index) } else { None::<u32> }),
    {
        if index < self.height { Some(index) } else { None }
    }

    /// The column `index` names, or `None` past the eastern edge.
    pub fn col(&self, index: u32) -> (col: Option<u32>)
        ensures
            col == (if index < self.spec_width() { Some(index) } else { None::<u32> }),
    {
        if index < self.width { Some(index) } else { None }
    }

    /// The column `k` steps east of `col`, or west for a negative `k`, wrapping around the seam.
    pub fn col_along(&self, col: u32, k: i64) -> (along: u32)
        requires
            col < self.spec_width(),
        ensures
            along < self.spec_width(),
            along as int == (col as int + k as int) % (self.spec_width() as int),
    {
        proof {
            use_type_invariant(self);
        }
        let width = self.width as u64;
        let along: u64 = if k >= 0 {
            let ahead = col as u64 + (k as u64 % width);
            let along = ahead % width;
            proof {
                let w = width as int;
                let q = (k as int) / w;
                vstd::arithmetic::div_mod::lemma_fundamental_div_mod(k as int, w);
                vstd::arithmetic::div_mod::lemma_fundamental_div_mod(ahead as int, w);
                let qa = (ahead as int) / w;
                assert(col as int + k as int == (q + qa) * w + along as int) by (nonlinear_arith)
                    requires
                        k as int == w * q + (k as int) % w,
                        ahead as int == col as int + (k as int) % w,
                        ahead as int == w * qa + along as int,
                ;
                vstd::arithmetic::div_mod::lemma_fundamental_div_mod_converse(
                    col as int + k as int,
                    w,
                    q + qa,
                    along as int,
                );
            }
            along
        } else {
            let back = if k == i64::MIN { 0x8000_0000_0000_0000u64 } else { (-k) as u64 };
            let behind = back % width;
            let along = if col as u64 >= behind { col as u64 - behind } else { col as u64 + width - behind };
            proof {
                let w = width as int;
                assert(back as int == -(k as int));
                vstd::arithmetic::div_mod::lemma_fundamental_div_mod(back as int, w);
                let q = (back as int) / w;
                let extra: int = if col as int >= behind as int { 0 } else { 1 };
                assert(col as int + k as int == (-q - extra) * w + along as int) by (nonlinear_arith)
                    requires
                        back as int == w * q + behind as int,
                        back as int == -(k as int),
                        along as int == col as int - behind as int + w * extra,
                ;
                vstd::arithmetic::div_mod::lemma_fundamental_div_mod_converse(
                    col as int + k as int,
                    w,
                    -q - extra,
                    along as int,
                );
            }
            along
        };
        along as u32
    }
}

} // verus!
