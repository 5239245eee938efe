//! Converters, the registry of direct conversions and the composer that
//! chains converters along a path.

use crate::error::{failed, made, outcome, BytaryError, BytaryResult, Failure};
use crate::format::{Format, FORMAT_COUNT};
use crate::utils::{formatted, FormattedWriter};
use vstd::prelude::*;
use vstd::slice::slice_to_vec;

verus! {

/// A direct conversion between two formats: a pure function from the bytes
/// of the input to the bytes of the output, or to a failure.
pub trait Converter {
    /// What the converter makes of an input. A converter that does not
    /// say so makes something that nothing is known of.
    open spec fn output(&self, input: Seq<u8>) -> Result<Seq<u8>, Failure> {
        arbitrary()
    }

    /// Converts `input`.
    fn convert(&self, input: &[u8]) -> (r: BytaryResult<Vec<u8>>)
        ensures
            outcome(r) == self.output(input@),
    ;
}

/// What a chain of converters makes of an input: each stage works on what
/// the stage before it made, the first failure ends the chain, and a chain
/// without stages hands the input on as it is.
pub open spec fn chained<C: Converter>(stages: Seq<C>, input: Seq<u8>) -> Result<
    Seq<u8>,
    Failure,
>
    decreases stages.len(),
{
    if stages.len() == 0 {
        Ok(input)
    } else {
        match stages[0].output(input) {
            Ok(made) => chained(stages.drop_first(), made),
            Err(failure) => Err(failure),
        }
    }
}

/// A chain of one converter does what the converter does.
pub proof fn lemma_chained_single<C: Converter>(stage: C, input: Seq<u8>)
    ensures
        chained(seq![stage], input) == stage.output(input),
{
    reveal_with_fuel(chained, 2);
    assert(seq![stage].drop_first() =~= Seq::<C>::empty());
}

/// A chain can be run in two parts: the second part works on what the
/// first part made.
pub proof fn lemma_chained_concat<C: Converter>(first: Seq<C>, second: Seq<C>, input: Seq<u8>)
    ensures
        chained(first + second, input) == match chained(first, input) {
            Ok(made) => chained(second, made),
            Err(failure) => Err(failure),
        },
    decreases first.len(),
{
    if first.len() == 0 {
        assert(first + second =~= second);
    } else {
        assert((first + second)[0] == first[0]);
        assert((first + second).drop_first() =~= first.drop_first() + second);
        match first[0].output(input) {
            Ok(made) => {
                lemma_chained_concat(first.drop_first(), second, made);
            },
            Err(_) => {},
        }
    }
}

/// Converters composed into one: the stages of a path, in order, each
/// borrowed from the registry that owns it.
pub struct Pipeline<'a, C: Converter> {
    stages: Vec<&'a C>,
}

impl<'a, C: Converter> Pipeline<'a, C> {
    /// The converters of the pipeline, first stage first.
    pub closed spec fn stages(self) -> Seq<C> {
        self.stages@.map_values(|stage: &C| *stage)
    }

    /// The pipeline of the given converters, in their order.
    pub fn new(converters: Vec<&'a C>) -> (pipeline: Self)
        ensures
            pipeline.stages() == converters@.map_values(|stage: &C| *stage),
    {
        Pipeline { stages: converters }
    }
}

impl<'a, C: Converter> Converter for Pipeline<'a, C> {
    open spec fn output(&self, input: Seq<u8>) -> Result<Seq<u8>, Failure> {
        chained(self.stages(), input)
    }

    /// Runs the stages in turn. What a stage makes is held whole in memory
    /// and handed to the next one; the first failure ends the run.
    fn convert(&self, input: &[u8]) -> (r: BytaryResult<Vec<u8>>)
    {
        let mut held = slice_to_vec(input);
        let mut i: usize = 0;
        assert(self.stages().skip(0) =~= self.stages());
        while i < self.stages.len()
            invariant
                i <= self.stages.len(),
                chained(self.stages(), input@) == chained(self.stages().skip(i as int), held@),
            decreases self.stages.len() - i,
        {
            let ghost rest = self.stages().skip(i as int);
            assert(rest[0] == *self.stages@[i as int]);
            assert(rest.drop_first() =~= self.stages().skip(i + 1));
            match self.stages[i].convert(held.as_slice()) {
                Ok(made) => {
                    held = made;
                },
                Err(error) => {
                    return Err(error);
                },
            }
            i += 1;
        }
        Ok(held)
    }
}

/// Where the registry keeps the edge between two formats.
pub open spec fn slot(from: Format, to: Format) -> int {
    from.rank() * FORMAT_COUNT + to.rank()
}

/// The registry of direct conversions: a directed graph whose nodes are
/// the formats and whose edges carry a converter and a cost.
pub struct ConversionGraph<C: Converter> {
    /// The edge between two formats stands in their slot; a slot that the
    /// vector does not reach is empty.
    edges: Vec<Option<(C, u32)>>,
}

impl<C: Converter> View for ConversionGraph<C> {
    type V = Map<(Format, Format), (C, u32)>;

    /// The edges: converter and cost for each ordered pair that has one.
    closed spec fn view(&self) -> Map<(Format, Format), (C, u32)> {
        Map::new(
            |pair: (Format, Format)|
                slot(pair.0, pair.1) < self.edges.len() && self.edges[slot(pair.0, pair.1)] is Some,
            |pair: (Format, Format)| self.edges[slot(pair.0, pair.1)]->Some_0,
        )
    }
}

impl<C: Converter> ConversionGraph<C> {
    /// The pairs with an edge whose slot lies below `bound`.
    spec fn edges_below(self, bound: int) -> Set<(Format, Format)> {
        Set::new(|pair: (Format, Format)| self@.contains_key(pair) && slot(pair.0, pair.1) < bound)
    }

    /// An empty registry.
    pub fn new() -> (graph: Self)
        ensures
            graph@ == Map::<(Format, Format), (C, u32)>::empty(),
    {
        let graph = ConversionGraph { edges: Vec::new() };
        assert(graph@ =~= Map::<(Format, Format), (C, u32)>::empty());
        graph
    }

    /// How many direct conversions are registered.
    pub fn size(&self) -> (n: usize)
        ensures
            self@.dom().finite(),
            n == self@.dom().len(),
    {
        let mut n: usize = 0;
        let mut i: usize = 0;
        assert(self.edges_below(0) =~= Set::<(Format, Format)>::empty());
        while i < self.edges.len() && i < FORMAT_COUNT * FORMAT_COUNT
            invariant
                i <= self.edges.len(),
                i <= FORMAT_COUNT * FORMAT_COUNT,
                n <= i,
                self.edges_below(i as int).finite(),
                n == self.edges_below(i as int).len(),
            decreases self.edges.len() - i,
        {
            let ghost pair = (Format::ranked(i as int / 6), Format::ranked(i as int % 6));
            assert(slot(pair.0, pair.1) == i);
            if self.edges[i].is_some() {
                assert(self.edges_below(i + 1) =~= self.edges_below(i as int).insert(pair));
                n += 1;
            } else {
                assert(self.edges_below(i + 1) =~= self.edges_below(i as int));
            }
            i += 1;
        }
        assert(self.edges_below(i as int) =~= self@.dom());
        n
    }

    /// Registers the direct conversion from `from` to `to`; one that was
    /// registered for the pair before is replaced.
    pub fn add_direct(&mut self, from: Format, to: Format, converter: C, cost: u32)
        ensures
            final(self)@ == old(self)@.insert((from, to), (converter, cost)),
    {
        let at = from.ordinal() * FORMAT_COUNT + to.ordinal();
        while self.edges.len() <= at
            invariant
                self@ == old(self)@,
                at == slot(from, to),
            decreases at + 1 - self.edges.len(),
        {
            let ghost before = self@;
            self.edges.push(None);
            assert(self@ =~= before);
        }
        let ghost before = self@;
        self.edges.set(at, Some((converter, cost)));
        assert(self@ =~= before.insert((from, to), (converter, cost)));
    }

    /// The converter of the direct conversion from `from` to `to`, if one
    /// is registered.
    pub fn get_direct_converter(&self, from: &Format, to: &Format) -> (r: Option<&C>)
        ensures
            match r {
                Some(converter) => self@.contains_key((*from, *to)) && *converter == self@[(
                    *from,
                    *to,
                )].0,
                None => !self@.contains_key((*from, *to)),
            },
    {
        let at = from.ordinal() * FORMAT_COUNT + to.ordinal();
        if at < self.edges.len() {
            match &self.edges[at] {
                Some((converter, _)) => Some(converter),
                None => None,
            }
        } else {
            None
        }
    }

    /// The cost of the direct conversion from `from` to `to`, if one is
    /// registered.
    pub fn get_direct_cost(&self, from: &Format, to: &Format) -> (r: Option<u32>)
        ensures
            r == if self@.contains_key((*from, *to)) {
                Some(self@[(*from, *to)].1)
            } else {
                None
            },
    {
        let at = from.ordinal() * FORMAT_COUNT + to.ordinal();
        if at < self.edges.len() {
            match &self.edges[at] {
                Some((_, cost)) => Some(*cost),
                None => None,
            }
        } else {
            None
        }
    }

    /// How many steps `path` makes along registered edges before it ends or
    /// meets a pair without an edge.
    pub open spec fn leading_steps(self, path: Seq<Format>) -> nat
        decreases path.len(),
    {
        if path.len() < 2 || !self@.contains_key((path[0], path[1])) {
            0
        } else {
            1 + self.leading_steps(path.drop_first())
        }
    }

    /// The converters of the first `count` steps of `path`.
    pub open spec fn converters_along(self, path: Seq<Format>, count: nat) -> Seq<C> {
        Seq::new(count, |i: int| self@[(path[i], path[i + 1])].0)
    }

    /// The converters that take an input from `from` to `to`, where the
    /// router finds a path: those of the edges of the path, in order, and
    /// none where the two formats are the same.
    pub open spec fn plan(self, from: Format, to: Format) -> Option<Seq<C>> {
        match self.route(from, to) {
            Some(path) => Some(self.converters_along(path, (path.len() - 1) as nat)),
            None => None,
        }
    }

    /// What converting `input` from `from` to `to` gives: what the planned
    /// converters make of it in turn, and a failure where no path leads
    /// from the one format to the other.
    pub open spec fn conversion(self, from: Format, to: Format, input: Seq<u8>) -> Result<
        Seq<u8>,
        Failure,
    > {
        match self.plan(from, to) {
            Some(stages) => chained(stages, input),
            None => Err(Failure::UnsupportedConversion(from, to)),
        }
    }

    /// A path along registered edges makes all its steps.
    pub proof fn lemma_route_steps(self, path: Seq<Format>)
        requires
            self.is_route(path),
        ensures
            self.leading_steps(path) == path.len() - 1,
        decreases path.len(),
    {
        if path.len() >= 2 {
            assert(self.has_step(path, 0));
            let rest = path.drop_first();
            assert forall|i: int| 0 <= i < rest.len() - 1 implies #[trigger] self.has_step(
                rest,
                i,
            ) by {
                assert(self.has_step(path, i + 1));
            }
            self.lemma_route_steps(rest);
        }
    }

    /// Composes converters into one: a pipeline that runs them in turn.
    /// Without converters it is the copy.
    pub fn compose<'a>(converters: Vec<&'a C>) -> (pipeline: Pipeline<'a, C>)
        ensures
            pipeline.stages() == converters@.map_values(|stage: &C| *stage),
    {
        Pipeline::new(converters)
    }

    /// The converter that hands its input on as it is.
    pub fn get_copy_converter<'a>() -> (pipeline: Pipeline<'a, C>)
        ensures
            pipeline.stages() == Seq::<C>::empty(),
    {
        let pipeline = Pipeline::new(Vec::new());
        assert(pipeline.stages() =~= Seq::<C>::empty());
        pipeline
    }

    /// The converters of the edges along `path`, up to the first pair of
    /// neighbours that has no edge.
    pub fn path_to_converters(&self, path: &Vec<Format>) -> (r: Option<Vec<&C>>)
        ensures
            r matches Some(converters) && converters@.map_values(|stage: &C| *stage)
                == self.converters_along(path@, self.leading_steps(path@)),
    {
        let mut converters: Vec<&C> = Vec::new();
        let mut i: usize = 0;
        assert(path@.skip(0) =~= path@);
        while i + 1 < path.len()
            invariant_except_break
                i < path.len() || path.len() == 0,
            invariant
                i <= path.len(),
                converters.len() == i,
                forall|k: int|
                    0 <= k < i ==> *(#[trigger] converters[k]) == self@[(path[k], path[k + 1])].0,
                self.leading_steps(path@) == i + self.leading_steps(path@.skip(i as int)),
            ensures
                self.leading_steps(path@) == i,
            decreases path.len() - i,
        {
            let ghost rest = path@.skip(i as int);
            assert(rest[0] == path[i as int] && rest[1] == path[i + 1]);
            assert(rest.drop_first() =~= path@.skip(i + 1));
            match self.get_direct_converter(&path[i], &path[i + 1]) {
                Some(converter) => {
                    converters.push(converter);
                },
                None => {
                    break ;
                },
            }
            i += 1;
        }
        assert(converters@.map_values(|stage: &C| *stage) =~= self.converters_along(
            path@,
            self.leading_steps(path@),
        ));
        Some(converters)
    }

    /// A converter from `from` to `to`: the copy where the two are the
    /// same, and else the converters along the cheapest path, composed.
    /// There is none where no path leads from `from` to `to`.
    pub fn get_converter<'a>(&'a self, from: &Format, to: &Format) -> (r: Option<Pipeline<'a, C>>)
        ensures
            r is Some <==> self.reachable(*from, *to),
            match r {
                Some(pipeline) => self.plan(*from, *to) == Some(pipeline.stages()),
                None => self.plan(*from, *to) is None,
            },
            self.routed(*from, *to),
    {
        if *to == *from {
            proof {
                self.lemma_stay(*from);
                assert(self.converters_along(seq![*from], 0) =~= Seq::<C>::empty());
            }
            return Some(Self::get_copy_converter());
        }
        let path = match self.find_shortest_path(from, to) {
            Some(path) => path,
            None => {
                return None;
            },
        };
        if path.len() <= 1 {
            return None;
        }
        proof {
            self.lemma_route_steps(path@);
        }
        let converters = self.path_to_converters(&path).unwrap();
        Some(Self::compose(converters))
    }

    /// Whether data in `from` can be brought into `to`.
    pub fn can_convert(&self, from: &Format, to: &Format) -> (possible: bool)
        ensures
            possible == self.reachable(*from, *to),
    {
        if *from == *to {
            proof {
                self.lemma_stay(*from);
            }
            return true;
        }
        self.find_shortest_path(from, to).is_some()
    }

    /// Whether data can be brought from each of the two formats into the
    /// other.
    pub fn can_convert_between(&self, format1: &Format, format2: &Format) -> (possible: bool)
        ensures
            possible == (self.reachable(*format1, *format2) && self.reachable(
                *format2,
                *format1,
            )),
    {
        if *format1 == *format2 {
            proof {
                self.lemma_stay(*format1);
            }
            return true;
        }
        self.find_shortest_path(format1, format2).is_some() && self.find_shortest_path(
            format2,
            format1,
        ).is_some()
    }

    /// Runs `input` through the converters of the edges along `path`, up to
    /// the first pair of neighbours that has no edge. A path of a single
    /// format gives the input back.
    pub fn convert_along(&self, path: &Vec<Format>, input: &[u8]) -> (r: BytaryResult<Vec<u8>>)
        ensures
            outcome(r) == chained(
                self.converters_along(path@, self.leading_steps(path@)),
                input@,
            ),
    {
        let converters = self.path_to_converters(path).unwrap();
        let converter = if converters.len() == 0 {
            Self::get_copy_converter()
        } else {
            Self::compose(converters)
        };
        converter.convert(input)
    }

    /// Converts `input` from `from` to `to` along the cheapest path. The
    /// same format on both sides gives the input back, whatever is
    /// registered; formats that no path joins are an error.
    pub fn convert(&self, from: &Format, to: &Format, input: &[u8]) -> (r: BytaryResult<Vec<u8>>)
        ensures
            outcome(r) == self.conversion(*from, *to, input@),
            self.routed(*from, *to),
            *from == *to ==> outcome(r) == made(input@),
            !self.reachable(*from, *to) ==> outcome(r) == failed(
                Failure::UnsupportedConversion(*from, *to),
            ),
    {
        let path = match self.find_shortest_path(from, to) {
            Some(path) => path,
            None => {
                return Err(BytaryError::UnsupportedConversion(*from, *to));
            },
        };
        proof {
            self.lemma_route_steps(path@);
            if *from == *to {
                assert(self.converters_along(seq![*from], 0) =~= Seq::<C>::empty());
            }
        }
        self.convert_along(&path, input)
    }

    /// Converting from a format to itself gives the input back, whatever is
    /// registered.
    pub proof fn lemma_identity(self, format: Format, input: Seq<u8>)
        ensures
            self.plan(format, format) == Some(Seq::<C>::empty()),
            self.conversion(format, format, input) == made(input),
    {
        assert(self.converters_along(seq![format], 0) =~= Seq::<C>::empty());
    }

    /// The path that a request is served along. The name of the target is
    /// read first, then the name of the source; a name that is not
    /// recognized is an error, and so are two formats that no path joins.
    pub open spec fn resolution(self, to: Seq<char>, from: Seq<char>) -> Result<
        Seq<Format>,
        Failure,
    > {
        match Format::named(to) {
            None => Err(Failure::InvalidFormat(to)),
            Some(target) => match Format::named(from) {
                None => Err(Failure::InvalidFormat(from)),
                Some(source) => match self.route(source, target) {
                    Some(path) => Ok(path),
                    None => Err(Failure::UnsupportedConversion(source, target)),
                },
            },
        }
    }

    /// What a request gives: what the converters along its path make of
    /// the input, written through a fresh formatted sink.
    pub open spec fn response(
        self,
        to: Seq<char>,
        from: Seq<char>,
        space_interval: int,
        wrap_interval: int,
        input: Seq<u8>,
    ) -> Result<Seq<u8>, Failure> {
        match self.resolution(to, from) {
            Ok(path) => match chained(
                self.converters_along(path, (path.len() - 1) as nat),
                input,
            ) {
                Ok(made) => Ok(formatted(made, 0, space_interval, wrap_interval)),
                Err(failure) => Err(failure),
            },
            Err(failure) => Err(failure),
        }
    }

    /// Finds the path for a request by the names of its formats. Where both
    /// names are recognized there is a path exactly where one leads from the
    /// source to the target, and it is the router's pick.
    pub fn resolve(&self, to: &str, from: &str) -> (r: BytaryResult<Vec<Format>>)
        ensures
            match r {
                Ok(path) => self.resolution(to@, from@) matches Ok(route) && route == path@,
                Err(error) => self.resolution(to@, from@) matches Err(failure) && failure
                    == error@,
            },
            r matches Ok(path) ==> self.is_route(path@),
            match (Format::named(to@), Format::named(from@)) {
                (Some(target), Some(source)) => self.routed(source, target) && (r is Ok
                    <==> self.reachable(source, target)),
                _ => r is Err,
            },
    {
        let target = match Format::try_from(to) {
            Ok(format) => format,
            Err(error) => {
                return Err(error);
            },
        };
        let source = match Format::try_from(from) {
            Ok(format) => format,
            Err(error) => {
                return Err(error);
            },
        };
        match self.find_shortest_path(&source, &target) {
            Some(path) => Ok(path),
            None => Err(BytaryError::UnsupportedConversion(source, target)),
        }
    }

    /// Serves a request: converts `input` from the format named `from` to
    /// the format named `to` and formats the result with a space after
    /// every `space_interval` bytes and a newline after every
    /// `wrap_interval` bytes. Where both names are recognized the request
    /// goes along the router's pick, and it is refused as unsupported
    /// exactly where no path leads from the source to the target.
    pub fn serve(
        &self,
        to: &str,
        from: &str,
        space_interval: usize,
        wrap_interval: usize,
        input: &[u8],
    ) -> (r: BytaryResult<Vec<u8>>)
        ensures
            outcome(r) == self.response(
                to@,
                from@,
                space_interval as int,
                wrap_interval as int,
                input@,
            ),
            match (Format::named(to@), Format::named(from@)) {
                (Some(target), Some(source)) => {
                    &&& self.routed(source, target)
                    &&& !self.reachable(source, target) ==> outcome(r) == failed(
                        Failure::UnsupportedConversion(source, target),
                    )
                    &&& self.reachable(source, target) ==> outcome(r) == match self.conversion(
                        source,
                        target,
                        input@,
                    ) {
                        Ok(made) => Ok(
                            formatted(made, 0, space_interval as int, wrap_interval as int),
                        ),
                        Err(failure) => Err(failure),
                    }
                },
                _ => r is Err,
            },
    {
        let path = match self.resolve(to, from) {
            Ok(path) => path,
            Err(error) => {
                return Err(error);
            },
        };
        proof {
            self.lemma_route_steps(path@);
        }
        let made = match self.convert_along(&path, input) {
            Ok(made) => made,
            Err(error) => {
                return Err(error);
            },
        };
        let mut writer = FormattedWriter::new(Vec::new(), space_interval, wrap_interval);
        writer.write(made.as_slice());
        let output = writer.into_inner();
        assert(output@ =~= formatted(made@, 0, space_interval as int, wrap_interval as int));
        Ok(output)
    }

    /// The test that a format passes where data can be brought from it to
    /// `with` and back.
    pub open spec fn exchanges(self, with: Format) -> spec_fn(Format) -> bool {
        |other: Format| self.reachable(with, other) && self.reachable(other, with)
    }

    /// The formats that data can be brought into from raw bytes and back,
    /// in declaration order.
    pub fn list_formats(&self) -> (formats: Vec<Format>)
        ensures
            formats@ == Format::every().filter(self.exchanges(Format::Bytes)),
    {
        let every = Format::all();
        let base = Format::default();
        let mut formats: Vec<Format> = Vec::new();
        let mut i: usize = 0;
        assert(every@.take(0).filter(self.exchanges(base)) =~= Seq::<Format>::empty()) by {
            reveal(Seq::filter);
        }
        while i < every.len()
            invariant
                i <= every.len(),
                base == Format::Bytes,
                every@ == Format::every(),
                formats@ == every@.take(i as int).filter(self.exchanges(base)),
            decreases every.len() - i,
        {
            let format = every[i];
            proof {
                reveal(Seq::filter);
                assert(every@.take(i + 1).drop_last() =~= every@.take(i as int));
                assert(every@.take(i + 1).last() == format);
            }
            if self.can_convert_between(&base, &format) {
                formats.push(format);
            }
            i += 1;
        }
        assert(every@.take(every.len() as int) =~= every@);
        formats
    }
}

} // verus!
