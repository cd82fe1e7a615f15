use vstd::prelude::*;

verus! {

/// A single value held on the stack.
#[derive(Clone, Copy, Debug, PartialEq, Eq, Structural)]
pub struct Data(pub i32);

impl Data {
    pub fn new(value: i32) -> (d: Data)
        ensures
            d.0 == value,
    {
        Data(value)
    }

    pub fn value(&self) -> (v: i32)
        ensures
            v == self.0,
    {
        self.0
    }
}

/// A LIFO stack of integers; the last element of the view is the top.
pub struct Stack {
    data: Vec<Data>,
}

impl View for Stack {
    type V = Seq<i32>;

    closed spec fn view(&self) -> Seq<i32> {
        self.data@.map_values(|d: Data| d.0)
    }
}

impl Stack {
    pub fn new() -> (s: Stack)
        ensures
            s@ == Seq::<i32>::empty(),
    {
        let s = Stack { data: Vec::new() };
        assert(s@ =~= Seq::<i32>::empty());
        s
    }

    /// Number of values on the stack.
    pub fn len(&self) -> (n: usize)
        ensures
            n == self@.len(),
    {
        self.data.len()
    }

    pub fn push(&mut self, value: Data)
        ensures
            final(self)@ == old(self)@.push(value.0),
    {
        self.data.push(value);
        assert(final(self)@ =~= old(self)@.push(value.0));
    }

    /// Removes and returns the top value; `None` on an empty stack, which is
    /// then left as it was.
    pub fn pop(&mut self) -> (r: Option<Data>)
        ensures
            old(self)@.len() == 0 ==> r is None && final(self)@ == old(self)@,
            old(self)@.len() > 0 ==> r == Some(Data(old(self)@.last()))
                && final(self)@ == old(self)@.drop_last(),
    {
        let r = self.data.pop();
        assert(final(self)@ =~= old(self)@.drop_last() || old(self)@.len() == 0);
        r
    }

    /// Pushes a copy of the top value; `false` on an empty stack, which is
    /// then left as it was.
    pub fn dup(&mut self) -> (ok: bool)
        ensures
            ok == (old(self)@.len() > 0),
            ok ==> final(self)@ == old(self)@.push(old(self)@.last()),
            !ok ==> final(self)@ == old(self)@,
    {
        let n = self.data.len();
        if n == 0 {
            return false;
        }
        let top = self.data[n - 1];
        self.push(top);
        true
    }

    /// The top value, left in place; `None` on an empty stack.
    pub fn peek(&self) -> (r: Option<&Data>)
        ensures
            self@.len() == 0 ==> r is None,
            self@.len() > 0 ==> (r matches Some(d) && d.0 == self@.last()),
    {
        let n = self.data.len();
        if n == 0 {
            None
        } else {
            Some(&self.data[n - 1])
        }
    }

    /// Pops one value and pushes what `f` makes of it; `false` on an empty
    /// stack, which is then left as it was, without calling `f`.
    pub fn op1(&mut self, f: impl FnOnce(Data) -> Data) -> (ok: bool)
        requires
            old(self)@.len() >= 1 ==> f.requires((Data(old(self)@.last()),)),
        ensures
            ok == (old(self)@.len() >= 1),
            !ok ==> final(self)@ == old(self)@,
            ok ==> exists|r: Data|
                f.ensures((Data(old(self)@.last()),), r) && final(self)@ == old(self)@.drop_last().push(
                    r.0,
                ),
    {
        if self.data.len() < 1 {
            return false;
        }
        let a = match self.pop() {
            Some(a) => a,
            None => {
                return false;
            },
        };
        let r = f(a);
        self.push(r);
        true
    }

    /// Pops the top value `a`, then the one below it `b`, and pushes
    /// `f(a, b)`; `false` on a stack of fewer than two values, which is then
    /// left as it was, without calling `f`.
    pub fn op2(&mut self, f: impl FnOnce(Data, Data) -> Data) -> (ok: bool)
        requires
            old(self)@.len() >= 2 ==> f.requires(
                (Data(old(self)@.last()), Data(old(self)@[old(self)@.len() - 2])),
            ),
        ensures
            ok == (old(self)@.len() >= 2),
            !ok ==> final(self)@ == old(self)@,
            ok ==> exists|r: Data|
                f.ensures((Data(old(self)@.last()), Data(old(self)@[old(self)@.len() - 2])), r)
                    && final(self)@ == old(self)@.drop_last().drop_last().push(r.0),
    {
        if self.data.len() < 2 {
            return false;
        }
        let a = match self.pop() {
            Some(a) => a,
            None => {
                return false;
            },
        };
        let b = match self.pop() {
            Some(b) => b,
            None => {
                return false;
            },
        };
        let r = f(a, b);
        self.push(r);
        true
    }
}

} // verus!
