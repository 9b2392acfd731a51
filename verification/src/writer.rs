//! A value together with a log of what happened while computing it.
use vstd::prelude::*;

verus! {

/// A value together with an append-only log of payloads.
#[derive(Debug)]
#[must_use]
pub struct Writer<T, Payload> {
    contents: T,
    log: Vec<Payload>,
}

impl<T, Payload> Writer<T, Payload> {
    /// The value carried by the writer.
    pub closed spec fn value(&self) -> T {
        self.contents
    }

    /// The log, oldest entry first.
    pub closed spec fn entries(&self) -> Seq<Payload> {
        self.log@
    }

    pub fn new(contents: T) -> (r: Self)
        ensures
            r.value() == contents,
            r.entries() == Seq::<Payload>::empty(),
    {
        Self { contents, log: Vec::new() }
    }

    pub fn new_with_log(contents: T, log: Vec<Payload>) -> (r: Self)
        ensures
            r.value() == contents,
            r.entries() == log@,
    {
        Self { contents, log }
    }

    /// Turns a missing writer into a writer of nothing, with an empty log.
    pub fn transpose(option: Option<Self>) -> (r: Writer<Option<T>, Payload>)
        ensures
            match option {
                Some(w) => r.value() == Some(w.value()) && r.entries() == w.entries(),
                None => r.value() is None && r.entries() == Seq::<Payload>::empty(),
            },
    {
        match option {
            Some(w) => Writer { contents: Some(w.contents), log: w.log },
            None => Writer::new(None),
        }
    }

    pub fn get_contents(&self) -> (r: &T)
        ensures
            *r == self.value(),
    {
        &self.contents
    }

    pub fn get_log(&self) -> (r: &Vec<Payload>)
        ensures
            r@ == self.entries(),
    {
        &self.log
    }

    pub fn into_both(self) -> (r: (T, Vec<Payload>))
        ensures
            r.0 == self.value(),
            r.1@ == self.entries(),
    {
        (self.contents, self.log)
    }

    /// Applies `f` to the value and keeps the log.
    pub fn map<U, F>(self, f: F) -> (r: Writer<U, Payload>)
        where
            F: FnOnce(T) -> U,
        requires
            f.requires((self.value(),)),
        ensures
            f.ensures((self.value(),), r.value()),
            r.entries() == self.entries(),
    {
        Writer::<U, Payload> { contents: f(self.contents), log: self.log }
    }

    /// Applies `f` to the value; the log of what `f` returns goes after this log.
    pub fn bind<U, F>(self, f: F) -> (r: Writer<U, Payload>)
        where
            F: FnOnce(T) -> Writer<U, Payload>,
        requires
            f.requires((self.value(),)),
        ensures
            exists|w: Writer<U, Payload>|
                #![trigger f.ensures((self.value(),), w)]
                f.ensures((self.value(),), w) && r.value() == w.value() && r.entries()
                    == self.entries() + w.entries(),
    {
        let inner = f(self.contents);
        let mut log = self.log;
        let Writer { contents, log: mut inner_log } = inner;
        log.append(&mut inner_log);
        Writer { contents, log }
    }

    /// Like `bind`, but where `f` fails, its error is returned and the log is dropped.
    pub fn bind_through_result<U, E, F>(self, f: F) -> (r: Result<Writer<U, Payload>, E>)
        where
            F: FnOnce(T) -> Result<Writer<U, Payload>, E>,
        requires
            f.requires((self.value(),)),
        ensures
            exists|res: Result<Writer<U, Payload>, E>|
                #![trigger f.ensures((self.value(),), res)]
                f.ensures((self.value(),), res) && match res {
                    Ok(w) => r matches Ok(rw) && rw.value() == w.value() && rw.entries()
                        == self.entries() + w.entries(),
                    Err(e) => r == Err::<Writer<U, Payload>, E>(e),
                },
    {
        match f(self.contents) {
            Ok(inner) => {
                let mut log = self.log;
                let Writer { contents, log: mut inner_log } = inner;
                log.append(&mut inner_log);
                Ok(Writer { contents, log })
            },
            Err(e) => Err(e),
        }
    }

    /// Where `f` finds something in the value, binds `g` with it; else keeps the writer as it is.
    pub fn bind_if_some<S, F, G>(self, f: F, g: G) -> (r: Self)
        where
            F: FnOnce(&T) -> Option<S>,
            G: FnOnce(T, S) -> Self,
        requires
            f.requires((&self.value(),)),
            forall|s: S| f.ensures((&self.value(),), Some(s)) ==> #[trigger] g.requires((self.value(), s)),
        ensures
            exists|found: Option<S>|
                #![trigger f.ensures((&self.value(),), found)]
                f.ensures((&self.value(),), found) && match found {
                    None => r.value() == self.value() && r.entries() == self.entries(),
                    Some(s) => exists|w: Self|
                        #![trigger g.ensures((self.value(), s), w)]
                        g.ensures((self.value(), s), w) && r.value() == w.value() && r.entries()
                            == self.entries() + w.entries(),
                },
    {
        let found = f(&self.contents);
        match found {
            Some(s) => {
                let inner = g(self.contents, s);
                let mut log = self.log;
                let Writer { contents, log: mut inner_log } = inner;
                log.append(&mut inner_log);
                Writer { contents, log }
            },
            None => self,
        }
    }

    /// Pairs the value with what `f` computes from it.
    pub fn borrow_and_pair<U, F>(self, f: F) -> (r: Writer<(T, U), Payload>)
        where
            F: FnOnce(&T) -> U,
        requires
            f.requires((&self.value(),)),
        ensures
            r.value().0 == self.value(),
            f.ensures((&self.value(),), r.value().1),
            r.entries() == self.entries(),
    {
        let apply = f(&self.contents);
        self.make_pair(apply)
    }

    /// Pairs the value with the value of the writer that `f` computes from it, and appends its log.
    pub fn borrow_and_zip<U, F>(self, f: F) -> (r: Writer<(T, U), Payload>)
        where
            F: FnOnce(&T) -> Writer<U, Payload>,
        requires
            f.requires((&self.value(),)),
        ensures
            exists|w: Writer<U, Payload>|
                #![trigger f.ensures((&self.value(),), w)]
                f.ensures((&self.value(),), w) && r.value() == (self.value(), w.value())
                    && r.entries() == self.entries() + w.entries(),
    {
        let to_zip = f(self.get_contents());
        self.zip(to_zip)
    }

    /// Combines two writers. Appends the log of the second to the first.
    pub fn zip<U>(self, other: Writer<U, Payload>) -> (r: Writer<(T, U), Payload>)
        ensures
            r.value() == (self.value(), other.value()),
            r.entries() == self.entries() + other.entries(),
    {
        let mut log = self.log;
        let Writer { contents, log: mut other_log } = other;
        log.append(&mut other_log);
        Writer { contents: (self.contents, contents), log }
    }

    /// Appends the log of the second to the first.
    pub fn zip_nothing(self, other: Writer<(), Payload>) -> (r: Writer<T, Payload>)
        ensures
            r.value() == self.value(),
            r.entries() == self.entries() + other.entries(),
    {
        let mut log = self.log;
        let mut other_log = other.log;
        log.append(&mut other_log);
        Writer { contents: self.contents, log }
    }

    pub fn log(self, line: Payload) -> (r: Self)
        ensures
            r.value() == self.value(),
            r.entries() == self.entries().push(line),
    {
        let mut w = self;
        w.log.push(line);
        w
    }

    /// Logs what `f` computes from the value.
    pub fn peek_and_log<F>(self, f: F) -> (r: Self)
        where
            F: FnOnce(&T) -> Payload,
        requires
            f.requires((&self.value(),)),
        ensures
            r.value() == self.value(),
            r.entries().len() == self.entries().len() + 1,
            r.entries().drop_last() == self.entries(),
            f.ensures((&self.value(),), r.entries().last()),
    {
        let line = f(&self.contents);
        let r = self.log(line);
        proof {
            assert(r.entries().drop_last() =~= self.entries());
        }
        r
    }

    /// Appends every line, in order.
    pub fn log_each(self, lines: Vec<Payload>) -> (r: Self)
        ensures
            r.value() == self.value(),
            r.entries() == self.entries() + lines@,
    {
        let mut w = self;
        let mut lines = lines;
        w.log.append(&mut lines);
        w
    }

    /// Appends the line, where there is one.
    pub fn log_option(self, line: Option<Payload>) -> (r: Self)
        ensures
            r.value() == self.value(),
            match line {
                Some(l) => r.entries() == self.entries().push(l),
                None => r.entries() == self.entries(),
            },
    {
        match line {
            Some(l) => self.log(l),
            None => self,
        }
    }

    pub fn make_pair<U>(self, value: U) -> (r: Writer<(T, U), Payload>)
        ensures
            r.value() == (self.value(), value),
            r.entries() == self.entries(),
    {
        Writer { contents: (self.contents, value), log: self.log }
    }
}

impl<T, Payload> Writer<Writer<T, Payload>, Payload> {
    /// The inner log goes after the outer one.
    pub fn flatten(self) -> (r: Writer<T, Payload>)
        ensures
            r.value() == self.value().value(),
            r.entries() == self.entries() + self.value().entries(),
    {
        let Writer { contents: inner, log: mut outer_log } = self;
        let Writer { contents, log: mut inner_log } = inner;
        outer_log.append(&mut inner_log);
        Writer::new_with_log(contents, outer_log)
    }
}

impl<T, E, Payload> Writer<Result<Writer<T, Payload>, E>, Payload> {
    /// If the inner Result is Err, propagate.
    /// Else, unwrap Ok and flatten.
    pub fn flatten_through_result(self) -> (r: Result<Writer<T, Payload>, E>)
        ensures
            match self.value() {
                Ok(w) => r matches Ok(rw) && rw.value() == w.value() && rw.entries()
                    == self.entries() + w.entries(),
                Err(e) => r == Err::<Writer<T, Payload>, E>(e),
            },
    {
        let Writer { contents: inner, log: mut outer_log } = self;
        match inner {
            Ok(inner) => {
                let Writer { contents, log: mut inner_log } = inner;
                outer_log.append(&mut inner_log);
                Ok(Writer::new_with_log(contents, outer_log))
            },
            Err(e) => Err(e),
        }
    }
}

impl<Keep, Extract, Payload> Writer<(Keep, Extract), Payload> {
    /// Can be thought of as transposing Pair and Writer.
    /// We arbitrarily choose the first of the pair to be kept.
    /// We can also swap the pair if needed.
    pub fn split_pair(self) -> (r: (Writer<Keep, Payload>, Extract))
        ensures
            r.0.value() == self.value().0,
            r.0.entries() == self.entries(),
            r.1 == self.value().1,
    {
        let Writer { contents: (keep, extract), log } = self;
        (Writer::new_with_log(keep, log), extract)
    }

    pub fn swap_pair(self) -> (r: Writer<(Extract, Keep), Payload>)
        ensures
            r.value() == (self.value().1, self.value().0),
            r.entries() == self.entries(),
    {
        let Writer { contents: (keep, extract), log } = self;
        Writer { contents: (extract, keep), log }
    }
}

/// A log with nothing else.
impl<Payload> Writer<(), Payload> {
    pub fn new_payload(payload: Payload) -> (r: Self)
        ensures
            r.entries() == seq![payload],
    {
        Self { contents: (), log: vec![payload] }
    }

    pub fn from_payloads(payloads: Vec<Payload>) -> (r: Self)
        ensures
            r.entries() == payloads@,
    {
        Self { contents: (), log: payloads }
    }

    /// Puts `t` in place of nothing, keeping the log.
    pub fn take<T>(self, t: T) -> (r: Writer<T, Payload>)
        ensures
            r.value() == t,
            r.entries() == self.entries(),
    {
        Writer { contents: t, log: self.log }
    }

    /// Prepend log.
    pub fn take_writer<T>(self, other: Writer<T, Payload>) -> (r: Writer<T, Payload>)
        ensures
            r.value() == other.value(),
            r.entries() == self.entries() + other.entries(),
    {
        self.take(other).flatten()
    }

    pub fn into_log(self) -> (r: Vec<Payload>)
        ensures
            r@ == self.entries(),
    {
        self.log
    }
}

impl<'a, T, Payload> Writer<&'a mut T, Payload> {
    /// Forgets the borrowed value, keeping the log.
    pub fn drop_ref(self) -> (r: Writer<(), Payload>)
        ensures
            r.entries() == self.entries(),
    {
        Writer { contents: (), log: self.log }
    }
}

impl<'a, T, Payload> Writer<&'a T, Payload> {
    /// Forgets the borrowed value, keeping the log.
    pub fn drop_ref(self) -> (r: Writer<(), Payload>)
        ensures
            r.entries() == self.entries(),
    {
        Writer { contents: (), log: self.log }
    }
}

impl<T, Payload> std::ops::Deref for Writer<T, Payload> {
    type Target = T;

    fn deref(&self) -> (r: &T)
        ensures
            *r == self.value(),
    {
        &self.contents
    }
}

} // verus!
