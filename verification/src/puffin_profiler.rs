//! The bookkeeping behind recording `tracing` spans as puffin profiler scopes: how the fields of a
//! span are formatted next to its scope name, and which scopes are closed when a span is exited.
use vstd::prelude::*;

verus! {

/// The address the puffin server listens on if the `PUFFIN_SERVER_ADDR` environment variable
/// isn't set.
pub const DEFAULT_PUFFIN_SERVER_ADDR: &'static str = "127.0.0.1:8585";

/// The address the puffin server listens on: the value of the `PUFFIN_SERVER_ADDR` environment
/// variable if it is set, or [`DEFAULT_PUFFIN_SERVER_ADDR`].
pub fn server_address(from_environment: Option<String>) -> (address: String)
    ensures
        match from_environment {
            Some(value) => address@ == value@,
            None => address@ == DEFAULT_PUFFIN_SERVER_ADDR@,
        },
{
    match from_environment {
        Some(value) => value,
        None => String::from_str(DEFAULT_PUFFIN_SERVER_ADDR),
    }
}

/// What recording the field `name` with the given `value` appends to the formatted fields `data`:
/// a `", "` separator if `data` isn't empty, then `value` for a field called `name`, and
/// `name=value` for other fields.
pub open spec fn recorded(data: Seq<char>, name: Seq<char>, value: Seq<char>) -> Seq<char> {
    let separated = if data.len() > 0 {
        data + ", "@
    } else {
        data
    };
    if name == "name"@ {
        separated + value
    } else {
        separated + name + "="@ + value
    }
}

/// Formats the fields of a span as `value` for a field called `name`, and as `field=value`
/// for other fields, separated by `", "`.
pub struct FieldVisitor {
    /// The formatted fields.
    pub data: String,
}

impl FieldVisitor {
    /// Records the field `name`, whose value is formatted as `value`.
    pub fn record(&mut self, name: &str, value: &str)
        ensures
            final(self).data@ == recorded(old(self).data@, name@, value@),
    {
        proof {
            reveal_strlit(", ");
            reveal_strlit("name");
            reveal_strlit("=");
        }
        if self.data.unicode_len() > 0 {
            self.data.append(", ");
        }
        let name_string = String::from_str(name);
        let name_field = String::from_str("name");
        if name_string == name_field {
            self.data.append(value);
        } else {
            self.data.append(name);
            self.data.append("=");
            self.data.append(value);
        }
    }
}

/// The puffin scopes opened for spans on a thread, oldest first: the id of each span and the
/// start offset of its scope.
pub struct OpenScopes {
    scopes: Vec<(u64, usize)>,
}

/// The position of the last scope opened for `span`, if any.
pub open spec fn last_position(scopes: Seq<(u64, usize)>, span: u64) -> Option<int>
    decreases scopes.len(),
{
    if scopes.len() == 0 {
        None
    } else if scopes.last().0 == span {
        Some(scopes.len() - 1)
    } else {
        last_position(scopes.drop_last(), span)
    }
}

impl View for OpenScopes {
    type V = Seq<(u64, usize)>;

    closed spec fn view(&self) -> Seq<(u64, usize)> {
        self.scopes@
    }
}

impl OpenScopes {
    /// No open scope.
    pub fn new() -> (scopes: Self)
        ensures
            scopes@ == Seq::<(u64, usize)>::empty(),
    {
        OpenScopes { scopes: Vec::new() }
    }

    /// Records that a scope starting at `offset` was opened for `span`.
    pub fn enter(&mut self, span: u64, offset: usize)
        ensures
            final(self)@ == old(self)@.push((span, offset)),
    {
        self.scopes.push((span, offset));
    }

    /// Closes the scope of `span`. Puffin scopes must be closed in the reverse order in which they
    /// were opened: if `span` isn't the last one, the scopes of the spans that were entered after
    /// it are closed as well. Returns the start offsets of the scopes to end, in the order in which
    /// to end them. Spans that were entered while scopes were off don't have a scope: nothing is
    /// closed for them.
    pub fn exit(&mut self, span: u64) -> (closed: Vec<usize>)
        ensures
            match last_position(old(self)@, span) {
                Some(position) => {
                    &&& final(self)@ == old(self)@.take(position)
                    &&& closed@ == old(self)@.skip(position).reverse().map_values(
                        |scope: (u64, usize)| scope.1,
                    )
                },
                None => {
                    &&& final(self)@ == old(self)@
                    &&& closed@ == Seq::<usize>::empty()
                },
            },
    {
        let ghost before = self.scopes@;
        let mut position = self.scopes.len();
        assert(before.take(position as int) =~= before);
        while position > 0 && self.scopes[position - 1].0 != span
            invariant
                position <= self.scopes.len(),
                self.scopes@ == before,
                last_position(before, span) == last_position(before.take(position as int), span),
            decreases position,
        {
            proof {
                assert(before.take(position - 1) =~= before.take(position as int).drop_last());
            }
            position = position - 1;
        }
        if position == 0 {
            assert(before.take(0) =~= Seq::<(u64, usize)>::empty());
            return Vec::new();
        }
        let position = position - 1;
        let mut closed: Vec<usize> = Vec::new();
        while self.scopes.len() > position
            invariant
                position <= self.scopes.len() <= before.len(),
                self.scopes@ == before.take(self.scopes.len() as int),
                closed@ == before.skip(self.scopes.len() as int).reverse().map_values(
                    |scope: (u64, usize)| scope.1,
                ),
            decreases self.scopes.len(),
        {
            let ghost len = self.scopes.len() as int;
            let scope = self.scopes.pop().unwrap();
            closed.push(scope.1);
            proof {
                assert(before.skip(len - 1) =~= seq![before[len - 1]] + before.skip(len));
                assert(before.skip(len - 1).reverse() =~= before.skip(len).reverse().push(
                    before[len - 1],
                ));
                assert(self.scopes@ =~= before.take(len - 1));
            }
        }
        proof {
            assert(before.take((position + 1) as int).last().0 == span);
        }
        closed
    }
}

/// Exiting a span right after entering it closes exactly the scope that was opened for it, and
/// leaves the other open scopes as they were.
pub proof fn lemma_exit_after_enter(scopes: Seq<(u64, usize)>, span: u64, offset: usize)
    ensures
        last_position(scopes.push((span, offset)), span) == Some(scopes.len() as int),
        scopes.push((span, offset)).take(scopes.len() as int) == scopes,
        scopes.push((span, offset)).skip(scopes.len() as int).reverse().map_values(
            |scope: (u64, usize)| scope.1,
        ) == seq![offset],
{
    assert(scopes.push((span, offset)).take(scopes.len() as int) =~= scopes);
    assert(scopes.push((span, offset)).skip(scopes.len() as int).reverse().map_values(
        |scope: (u64, usize)| scope.1,
    ) =~= seq![offset]);
}

} // verus!
