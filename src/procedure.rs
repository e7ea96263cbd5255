//! Procedures: a resolver of one kind, the middleware it was built with, and the
//! static metadata that describes it to clients.
use vstd::prelude::*;
use specta::datatype::DataType;

verus! {

/// The schema of a value, as specta describes it. Descriptors carry it through
/// to client binding generators; nothing here looks inside it.
#[verifier::external_type_specification]
#[verifier::external_body]
pub struct ExDataType(specta::datatype::DataType);

/// The three kinds of procedure.
#[derive(Clone, Copy, Debug, PartialEq, Eq, Structural)]
pub enum ProcedureKind {
    Query,
    Mutation,
    Subscription,
}

/// Where a procedure was defined, for diagnostics.
#[derive(Clone, Debug)]
pub struct Location {
    pub file: String,
    pub line: u32,
    pub column: u32,
}

impl Location {
    pub fn new(file: String, line: u32, column: u32) -> (r: Location)
        ensures
            r == (Location { file, line, column }),
    {
        Location { file, line, column }
    }

    /// A copy of this location.
    pub fn duplicate(&self) -> (r: Location)
        ensures
            r == *self,
    {
        Location { file: self.file.clone(), line: self.line, column: self.column }
    }
}

/// The static description of one procedure: its kind, its input, output and
/// error schemas, and where it was defined.
#[derive(Debug)]
pub struct ProcedureDescriptor {
    pub kind: ProcedureKind,
    pub input: DataType,
    pub output: DataType,
    pub error: DataType,
    pub location: Location,
}

/// What a middleware contributes at build time: an optional setup hook,
/// identified by the handle under which its code was registered.
pub struct Extension {
    pub setup: Option<u64>,
}

/// The storable form of a procedure: its setup hooks in registration order, the
/// handle of its execution entry point, and its descriptor.
#[derive(Debug)]
pub struct ErasedProcedure {
    pub setup: Vec<u64>,
    pub handler: u64,
    pub descriptor: ProcedureDescriptor,
}

/// A procedure under construction: the schemas its outermost layer exposes and
/// the setup hooks of the middleware added so far.
pub struct ProcedureBuilder {
    pub input: DataType,
    pub output: DataType,
    pub error: DataType,
    pub location: Location,
    pub setup: Vec<u64>,
}

/// A procedure whose resolver is bound.
pub struct Procedure {
    pub handler: u64,
    pub descriptor: ProcedureDescriptor,
    pub setup: Vec<u64>,
}

impl ProcedureBuilder {
    /// Adds a middleware layer; its setup hook, if any, runs after those added
    /// before it.
    pub fn with(self, mw: Extension) -> (r: ProcedureBuilder)
        ensures
            r.input == self.input,
            r.output == self.output,
            r.error == self.error,
            r.location == self.location,
            r.setup@ == match mw.setup {
                Some(h) => self.setup@.push(h),
                None => self.setup@,
            },
    {
        let mut b = self;
        if let Some(h) = mw.setup {
            b.setup.push(h);
        }
        b
    }

    fn bind(self, kind: ProcedureKind, handler: u64) -> (r: Procedure)
        ensures
            r.handler == handler,
            r.descriptor == (ProcedureDescriptor {
                kind,
                input: self.input,
                output: self.output,
                error: self.error,
                location: self.location,
            }),
            r.setup == self.setup,
    {
        Procedure {
            handler,
            descriptor: ProcedureDescriptor {
                kind,
                input: self.input,
                output: self.output,
                error: self.error,
                location: self.location,
            },
            setup: self.setup,
        }
    }

    /// Binds a query resolver, registered under `handler`.
    pub fn query(self, handler: u64) -> (r: Procedure)
        ensures
            r.handler == handler,
            r.descriptor == (ProcedureDescriptor {
                kind: ProcedureKind::Query,
                input: self.input,
                output: self.output,
                error: self.error,
                location: self.location,
            }),
            r.setup == self.setup,
    {
        self.bind(ProcedureKind::Query, handler)
    }

    /// Binds a mutation resolver, registered under `handler`.
    pub fn mutation(self, handler: u64) -> (r: Procedure)
        ensures
            r.handler == handler,
            r.descriptor == (ProcedureDescriptor {
                kind: ProcedureKind::Mutation,
                input: self.input,
                output: self.output,
                error: self.error,
                location: self.location,
            }),
            r.setup == self.setup,
    {
        self.bind(ProcedureKind::Mutation, handler)
    }

    /// Binds a subscription resolver, registered under `handler`.
    pub fn subscription(self, handler: u64) -> (r: Procedure)
        ensures
            r.handler == handler,
            r.descriptor == (ProcedureDescriptor {
                kind: ProcedureKind::Subscription,
                input: self.input,
                output: self.output,
                error: self.error,
                location: self.location,
            }),
            r.setup == self.setup,
    {
        self.bind(ProcedureKind::Subscription, handler)
    }
}

impl Procedure {
    /// Starts a procedure whose resolver takes `input` and returns `output` or
    /// `error`; no middleware yet.
    pub fn builder(input: DataType, output: DataType, error: DataType, location: Location) -> (r:
        ProcedureBuilder)
        ensures
            r.input == input,
            r.output == output,
            r.error == error,
            r.location == location,
            r.setup@.len() == 0,
    {
        ProcedureBuilder { input, output, error, location, setup: Vec::new() }
    }

    /// Adds a middleware's setup hook to an already bound procedure.
    pub fn with(self, mw: Extension) -> (r: Procedure)
        ensures
            r.handler == self.handler,
            r.descriptor == self.descriptor,
            r.setup@ == match mw.setup {
                Some(h) => self.setup@.push(h),
                None => self.setup@,
            },
    {
        let mut p = self;
        if let Some(h) = mw.setup {
            p.setup.push(h);
        }
        p
    }

    /// The storable form of this procedure.
    pub fn erase(self) -> (r: ErasedProcedure)
        ensures
            r.setup == self.setup,
            r.handler == self.handler,
            r.descriptor == self.descriptor,
    {
        ErasedProcedure { setup: self.setup, handler: self.handler, descriptor: self.descriptor }
    }
}

} // verus!
