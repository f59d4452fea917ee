use crate::base::grid::Sudoku;
use crate::base::index::Ix;
use vstd::prelude::*;
use vstd::std_specs::convert::FromSpec;

verus! {

/// Which kind of region a traversal is at.
#[derive(Clone, Copy)]
enum RegionType {
    Row,
    Col,
    Block,
    Ended,
}

impl RegionType {
    /// The kind that follows: rows, then columns, then blocks, then the end.
    fn succ(self) -> (r: RegionType)
        ensures
            r == match self {
                RegionType::Row => RegionType::Col,
                RegionType::Col => RegionType::Block,
                RegionType::Block => RegionType::Ended,
                RegionType::Ended => RegionType::Ended,
            },
    {
        match self {
            RegionType::Row => RegionType::Col,
            RegionType::Col => RegionType::Block,
            RegionType::Block => RegionType::Ended,
            RegionType::Ended => RegionType::Ended,
        }
    }
}

/// A traversal of the 27 regions of a grid: the nine rows, then the nine columns,
/// then the nine blocks.
pub struct Regions<'a, T> {
    sudoku: &'a Sudoku<T>,
    ix: Ix,
    ty: RegionType,
}

impl<'a, T> Regions<'a, T> {
    /// The grid that is traversed.
    pub closed spec fn grid(self) -> Sudoku<T> {
        *self.sudoku
    }

    /// The number of the region that `next` hands out, and 27 once all are handed out.
    pub closed spec fn position(self) -> int {
        match self.ty {
            RegionType::Row => self.ix.index(),
            RegionType::Col => 9 + self.ix.index(),
            RegionType::Block => 18 + self.ix.index(),
            RegionType::Ended => 27,
        }
    }

    /// A traversal of `sudoku` that stands before its first row.
    pub fn new(sudoku: &'a Sudoku<T>) -> (regions: Self)
        ensures
            regions.grid() == *sudoku,
            regions.position() == 0,
    {
        Self { sudoku, ix: Ix::Ix1, ty: RegionType::Row }
    }

    /// The cells of the next region, or `None` once all 27 have been handed out.
    pub fn next(&mut self) -> (region: Option<Vec<&'a T>>)
        ensures
            0 <= old(self).position() <= 27,
            final(self).grid() == old(self).grid(),
            final(self).position() == if old(self).position() < 27 {
                old(self).position() + 1
            } else {
                27
            },
            region is Some <==> old(self).position() < 27,
            region matches Some(cells) ==> cells@.len() == 9 && forall|j: int|
                0 <= j < 9 ==> *(#[trigger] cells@[j]) == old(self).grid().region_cell(
                    old(self).position(),
                    j,
                ),
    {
        let res = match self.ty {
            RegionType::Row => self.sudoku.row(self.ix),
            RegionType::Col => self.sudoku.col(self.ix),
            RegionType::Block => self.sudoku.block(self.ix),
            RegionType::Ended => {
                return None;
            },
        };
        if let Ix::Ix9 = self.ix {
            self.ty = self.ty.succ();
        }
        self.ix = self.ix.succ();
        Some(res)
    }
}

impl<T> Sudoku<T> {
    /// A traversal of the 27 regions of this grid, standing before the first row.
    pub fn regions<'a>(&'a self) -> (regions: Regions<'a, T>)
        ensures
            regions.grid() == *self,
            regions.position() == 0,
    {
        Regions::new(self)
    }
}

/// Fills `output_U` with the cells of `input_T`, each converted by `U::from`.
pub fn conv_sudoku_type<T: Copy, U: From<T>>(input_T: Sudoku<T>, output_U: &mut Sudoku<U>)
    ensures
        forall|r: int, c: int|
            0 <= r < 9 && 0 <= c < 9 ==> call_ensures(
                U::from,
                (input_T.at(r, c),),
                #[trigger] final(output_U).at(r, c),
            ),
        U::obeys_from_spec() ==> forall|r: int, c: int|
            0 <= r < 9 && 0 <= c < 9 ==> #[trigger] final(output_U).at(r, c) == U::from_spec(
                input_T.at(r, c),
            ),
{
    let ixs = Ix::all_indices();
    let mut i: usize = 0;
    while i < 9
        invariant
            i <= 9,
            forall|k: int| 0 <= k < 9 ==> (#[trigger] ixs[k]).index() == k,
            forall|r: int, c: int|
                0 <= r < i && 0 <= c < 9 ==> call_ensures(
                    U::from,
                    (input_T.at(r, c),),
                    #[trigger] output_U.at(r, c),
                ),
        decreases 9 - i,
    {
        let mut j: usize = 0;
        while j < 9
            invariant
                i < 9,
                j <= 9,
                forall|k: int| 0 <= k < 9 ==> (#[trigger] ixs[k]).index() == k,
                forall|r: int, c: int|
                    0 <= r < i && 0 <= c < 9 ==> call_ensures(
                        U::from,
                        (input_T.at(r, c),),
                        #[trigger] output_U.at(r, c),
                    ),
                forall|c: int|
                    0 <= c < j ==> call_ensures(
                        U::from,
                        (input_T.at(i as int, c),),
                        #[trigger] output_U.at(i as int, c),
                    ),
            decreases 9 - j,
        {
            let value = U::from(*input_T.get(ixs[i], ixs[j]));
            *output_U.get_mut(ixs[i], ixs[j]) = value;
            j += 1;
        }
        i += 1;
    }
}

} // verus!
