use vstd::prelude::*;

verus! {

/// How a buffer created by the provider is used by the backend.
#[derive(Clone, Copy, Debug, PartialEq, Eq, Structural)]
pub enum BufferUsage {
    /// Destination of copies, bound as a uniform buffer.
    CopyDstUniform,
    /// CPU-written source of a copy.
    CopySrc,
}

/// One backend operation. Resource handles are minted by the provider and
/// are opaque to it; the backend maps them onto its own objects.
#[derive(Clone, Debug)]
pub enum Command {
    CreateBuffer { resource: u64, size: u64, usage: BufferUsage },
    /// A `CopySrc` buffer created with the given bytes already written.
    CreateBufferMapped { resource: u64, data: Vec<u8> },
    CopyBufferToBuffer {
        source: u64,
        source_offset: u64,
        destination: u64,
        destination_offset: u64,
        size: u64,
    },
    RemoveBuffer { resource: u64 },
    /// A texture created from the texture asset with the given handle.
    CreateTexture { resource: u64, texture: u64 },
    /// A sampler described by the texture asset with the given handle.
    CreateSampler { resource: u64, texture: u64 },
    /// Binds a resource to an entity's named binding slot.
    Bind { entity: u64, name: String, resource: u64 },
    /// Publishes a resource under a name to the rest of the renderer.
    SetNamedResource { name: String, resource: u64 },
}

/// What a command says, with its byte and name payloads as sequences.
pub enum CommandView {
    CreateBuffer { resource: u64, size: u64, usage: BufferUsage },
    CreateBufferMapped { resource: u64, data: Seq<u8> },
    CopyBufferToBuffer {
        source: u64,
        source_offset: u64,
        destination: u64,
        destination_offset: u64,
        size: u64,
    },
    RemoveBuffer { resource: u64 },
    CreateTexture { resource: u64, texture: u64 },
    CreateSampler { resource: u64, texture: u64 },
    Bind { entity: u64, name: Seq<char>, resource: u64 },
    SetNamedResource { name: Seq<char>, resource: u64 },
}

impl View for Command {
    type V = CommandView;

    open spec fn view(&self) -> CommandView {
        match self {
            Command::CreateBuffer { resource, size, usage } => CommandView::CreateBuffer {
                resource: *resource,
                size: *size,
                usage: *usage,
            },
            Command::CreateBufferMapped { resource, data } => CommandView::CreateBufferMapped {
                resource: *resource,
                data: data@,
            },
            Command::CopyBufferToBuffer {
                source,
                source_offset,
                destination,
                destination_offset,
                size,
            } => CommandView::CopyBufferToBuffer {
                source: *source,
                source_offset: *source_offset,
                destination: *destination,
                destination_offset: *destination_offset,
                size: *size,
            },
            Command::RemoveBuffer { resource } => CommandView::RemoveBuffer { resource: *resource },
            Command::CreateTexture { resource, texture } => CommandView::CreateTexture {
                resource: *resource,
                texture: *texture,
            },
            Command::CreateSampler { resource, texture } => CommandView::CreateSampler {
                resource: *resource,
                texture: *texture,
            },
            Command::Bind { entity, name, resource } => CommandView::Bind {
                entity: *entity,
                name: name@,
                resource: *resource,
            },
            Command::SetNamedResource { name, resource } => CommandView::SetNamedResource {
                name: name@,
                resource: *resource,
            },
        }
    }
}

/// The views of a list of commands.
pub open spec fn views(s: Seq<Command>) -> Seq<CommandView> {
    s.map_values(|c: Command| c@)
}

/// Appending commands appends their views.
pub proof fn lemma_views_append(a: Seq<Command>, b: Seq<Command>)
    ensures
        views(a + b) == views(a) + views(b),
{
    assert(views(a + b) =~= views(a) + views(b));
}

} // verus!
