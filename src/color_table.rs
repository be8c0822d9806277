use vstd::prelude::*;

verus! {

/// The `n` by `n` table whose row `i` is `v[i * n .. i * n + n]`.
pub open spec fn row_major<T>(v: Seq<T>, n: nat) -> Seq<Seq<T>> {
    Seq::new(n, |i: int| v.subrange(i * n, i * n + n))
}

/// `m` has `n` rows of `n` entries.
pub open spec fn is_square<T>(m: Seq<Seq<T>>, n: nat) -> bool {
    &&& m.len() == n
    &&& forall|i: int| 0 <= i < n ==> (#[trigger] m[i]).len() == n
}

/// The `n` by `n` table holding `fill` everywhere.
pub open spec fn filled<T>(fill: T, n: nat) -> Seq<Seq<T>> {
    Seq::new(n, |i: int| Seq::new(n, |j: int| fill))
}

/// `m`, an `n` by `n` table, with a row and a column of `fill` added last.
pub open spec fn grown<T>(m: Seq<Seq<T>>, n: nat, fill: T) -> Seq<Seq<T>> {
    Seq::new(
        n + 1,
        |i: int| Seq::new(n + 1, |j: int| if i < n && j < n { m[i][j] } else { fill }),
    )
}

/// `m`, an `n` by `n` table, without its last row and column.
pub open spec fn shrunk<T>(m: Seq<Seq<T>>, n: nat) -> Seq<Seq<T>> {
    Seq::new((n - 1) as nat, |i: int| m[i].subrange(0, n - 1))
}

/// A palette of colours and the interaction matrix between them: entry
/// `(a, b)` scales the force that a particle of colour `a` feels from one of
/// colour `b`. The matrix need not be symmetric.
pub struct ColorTable<C, T> {
    colors: Vec<C>,
    table: Vec<Vec<T>>,
}

impl<C, T: Copy> ColorTable<C, T> {
    /// The colours, by id.
    pub closed spec fn palette(&self) -> Seq<C> {
        self.colors@
    }

    /// The interaction matrix, row `a` for a particle of colour `a`.
    pub closed spec fn matrix(&self) -> Seq<Seq<T>> {
        Seq::new(self.table@.len(), |i: int| self.table@[i]@)
    }

    /// The number of colours.
    pub open spec fn count(&self) -> nat {
        self.palette().len()
    }

    /// The matrix has one row and one column per colour.
    pub open spec fn wf(&self) -> bool {
        is_square(self.matrix(), self.count())
    }

    /// A palette with the matrix read row by row from `coefficients`.
    pub fn new(color_palette: Vec<C>, coefficients: &Vec<T>) -> (r: Self)
        requires
            coefficients@.len() == color_palette@.len() * color_palette@.len(),
        ensures
            r.wf(),
            r.palette() == color_palette@,
            r.matrix() == row_major(coefficients@, color_palette@.len()),
    {
        let n = color_palette.len();
        let table = Self::table_from(coefficients, n);
        ColorTable { colors: color_palette, table }
    }

    /// A palette and a matrix given as rows, where the matrix has one row and
    /// one column per colour.
    pub fn from_parts(colors: Vec<C>, table: Vec<Vec<T>>) -> (r: Option<Self>)
        ensures
            r is Some <==> is_square(Seq::new(table@.len(), |i: int| table@[i]@), colors@.len()),
            r matches Some(t) ==> t.palette() == colors@ && t.matrix() == Seq::new(
                table@.len(),
                |i: int| table@[i]@,
            ),
    {
        let n = colors.len();
        if table.len() != n {
            return None;
        }
        let mut i: usize = 0;
        while i < n
            invariant
                i <= n,
                table@.len() == n,
                forall|j: int| 0 <= j < i ==> (#[trigger] table@[j])@.len() == n,
            decreases n - i,
        {
            if table[i].len() != n {
                assert(!is_square(Seq::new(table@.len(), |k: int| table@[k]@), n as nat)) by {
                    assert(Seq::new(table@.len(), |k: int| table@[k]@)[i as int].len() != n);
                }
                return None;
            }
            i += 1;
        }
        Some(ColorTable { colors, table })
    }

    /// The `n` by `n` matrix read row by row from `coefficients`.
    fn table_from(coefficients: &Vec<T>, n: usize) -> (r: Vec<Vec<T>>)
        requires
            coefficients@.len() == n * n,
        ensures
            Seq::new(r@.len(), |i: int| r@[i]@) == row_major(coefficients@, n as nat),
            is_square(row_major(coefficients@, n as nat), n as nat),
    {
        let total = coefficients.len();
        let mut table: Vec<Vec<T>> = Vec::new();
        let mut i: usize = 0;
        while i < n
            invariant
                i <= n,
                coefficients@.len() == n * n,
                total == n * n,
                table@.len() == i,
                forall|k: int| 0 <= k < i ==> (#[trigger] table@[k])@ == coefficients@.subrange(k * n, k * n + n),
            decreases n - i,
        {
            proof {
                lemma_row_fits(i as int, n as int);
            }
            let start = i * n;
            let mut row: Vec<T> = Vec::new();
            let mut j: usize = 0;
            while j < n
                invariant
                    j <= n,
                    i < n,
                    start == i * n,
                    start + n <= n * n,
                    total == n * n,
                    coefficients@.len() == n * n,
                    row@ == coefficients@.subrange(start as int, start + j),
                decreases n - j,
            {
                row.push(coefficients[start + j]);
                j += 1;
                assert(row@ =~= coefficients@.subrange(start as int, start + j));
            }
            table.push(row);
            i += 1;
        }
        assert(Seq::new(table@.len(), |i: int| table@[i]@) =~= row_major(coefficients@, n as nat));
        assert forall|k: int| 0 <= k < n implies (#[trigger] row_major(coefficients@, n as nat)[k]).len() == n by {
            lemma_row_fits(k, n as int);
        }
        table
    }

    /// Replaces the matrix by one read row by row from `coefficients`.
    pub fn new_random_table(&mut self, coefficients: &Vec<T>)
        requires
            coefficients@.len() == old(self).count() * old(self).count(),
        ensures
            final(self).wf(),
            final(self).palette() == old(self).palette(),
            final(self).matrix() == row_major(coefficients@, old(self).count()),
    {
        let n = self.colors.len();
        self.table = Self::table_from(coefficients, n);
    }

    /// Replaces the matrix by one holding `fill` everywhere.
    pub fn new_filled_table(&mut self, fill: T)
        ensures
            final(self).wf(),
            final(self).palette() == old(self).palette(),
            final(self).matrix() == filled(fill, old(self).count()),
    {
        let n = self.colors.len();
        let mut table: Vec<Vec<T>> = Vec::new();
        let mut i: usize = 0;
        while i < n
            invariant
                i <= n,
                table@.len() == i,
                forall|k: int| 0 <= k < i ==> (#[trigger] table@[k])@ == Seq::new(n as nat, |j: int| fill),
            decreases n - i,
        {
            let mut row: Vec<T> = Vec::new();
            let mut j: usize = 0;
            while j < n
                invariant
                    j <= n,
                    row@ == Seq::new(j as nat, |k: int| fill),
                decreases n - j,
            {
                row.push(fill);
                j += 1;
                assert(row@ =~= Seq::new(j as nat, |k: int| fill));
            }
            table.push(row);
            i += 1;
        }
        self.table = table;
        assert(self.matrix() =~= filled(fill, n as nat));
    }

    /// Appends `color` to the palette, and to the matrix a row and a column
    /// of `fill`, keeping every other coefficient where it was.
    pub fn add_color(&mut self, color: C, fill: T)
        requires
            old(self).wf(),
            old(self).count() < usize::MAX,
        ensures
            final(self).wf(),
            final(self).palette() == old(self).palette().push(color),
            final(self).matrix() == grown(old(self).matrix(), old(self).count(), fill),
    {
        let n = self.colors.len();
        let ghost m = self.matrix();
        let mut i: usize = 0;
        while i < n
            invariant
                i <= n,
                n == self.colors@.len(),
                self.colors@ == old(self).colors@,
                self.table@.len() == n,
                m == old(self).matrix(),
                is_square(m, n as nat),
                forall|k: int| 0 <= k < i ==> (#[trigger] self.table@[k])@ == m[k].push(fill),
                forall|k: int| i <= k < n ==> (#[trigger] self.table@[k])@ == m[k],
            decreases n - i,
        {
            self.table[i].push(fill);
            i += 1;
        }
        let mut row: Vec<T> = Vec::new();
        let mut j: usize = 0;
        while j <= n
            invariant
                j <= n + 1,
                n < usize::MAX,
                row@ == Seq::new(j as nat, |k: int| fill),
            decreases n + 1 - j,
        {
            row.push(fill);
            j += 1;
            assert(row@ =~= Seq::new(j as nat, |k: int| fill));
        }
        self.table.push(row);
        self.colors.push(color);
        let ghost g = grown(m, n as nat, fill);
        assert forall|k: int| 0 <= k <= n implies #[trigger] self.matrix()[k] =~= g[k] by {
            if k < n {
                assert(self.table@[k]@ == m[k].push(fill));
            }
        }
        assert(self.matrix() =~= g);
    }

    /// Drops the last colour from the palette, with its row and column of
    /// the matrix; a palette of one colour or none is left as it is.
    pub fn remove_color(&mut self)
        requires
            old(self).wf(),
        ensures
            final(self).wf(),
            old(self).count() <= 1 ==> final(self).palette() == old(self).palette() && final(self).matrix()
                == old(self).matrix(),
            old(self).count() > 1 ==> final(self).palette() == old(self).palette().drop_last()
                && final(self).matrix() == shrunk(old(self).matrix(), old(self).count()),
    {
        let n = self.colors.len();
        if n <= 1 {
            return;
        }
        let ghost m = self.matrix();
        self.colors.pop();
        self.table.pop();
        let last = n - 1;
        let mut i: usize = 0;
        while i < last
            invariant
                i <= last,
                last == n - 1,
                self.colors@ == old(self).colors@.drop_last(),
                self.table@.len() == last,
                m == old(self).matrix(),
                is_square(m, n as nat),
                forall|k: int| 0 <= k < i ==> (#[trigger] self.table@[k])@ == m[k].subrange(0, n - 1),
                forall|k: int| i <= k < last ==> (#[trigger] self.table@[k])@ == m[k],
            decreases last - i,
        {
            self.table[i].pop();
            i += 1;
        }
        assert forall|k: int| 0 <= k < last implies #[trigger] self.matrix()[k] =~= shrunk(m, n as nat)[k] by {
            assert(self.table@[k]@ == m[k].subrange(0, n - 1));
        }
        assert(self.matrix() =~= shrunk(m, n as nat));
    }

    /// The number of colours.
    pub fn color_count(&self) -> (r: usize)
        ensures
            r == self.count(),
    {
        self.colors.len()
    }

    /// The colours, by id.
    pub fn colors(&self) -> (r: &Vec<C>)
        ensures
            r@ == self.palette(),
    {
        &self.colors
    }

    /// The interaction matrix, row by row.
    pub fn table(&self) -> (r: &Vec<Vec<T>>)
        ensures
            Seq::new(r@.len(), |i: int| r@[i]@) == self.matrix(),
    {
        &self.table
    }

    /// The coefficient of the force that colour `a` feels from colour `b`.
    pub fn coefficient(&self, a: usize, b: usize) -> (r: T)
        requires
            self.wf(),
            a < self.count(),
            b < self.count(),
        ensures
            r == self.matrix()[a as int][b as int],
    {
        assert(self.table@[a as int]@ == self.matrix()[a as int]);
        self.table[a][b]
    }
}

proof fn lemma_row_fits(i: int, n: int)
    requires
        0 <= i < n,
    ensures
        0 <= i * n,
        i * n + n <= n * n,
{
    assert(0 <= i * n) by (nonlinear_arith)
        requires
            0 <= i < n,
    ;
    assert(i * n + n <= n * n) by (nonlinear_arith)
        requires
            0 <= i < n,
    ;
}

} // verus!
