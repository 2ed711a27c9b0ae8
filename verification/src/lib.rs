//! Verified bookkeeping of a position-based cloth simulation bridged to a
//! rigid-body engine: generational registries of cloths and attachments,
//! mesh topology validation, grid triangulation, contact-key merging,
//! target ordering, the world's substep protocol and the live demo's
//! request handling. Numerical work operates on the values these functions
//! validate and order.

pub mod arena;
pub mod attachment;
pub mod cloth_set;
pub mod contact;
pub mod error;
pub mod grid;
pub mod identity;
pub mod registry;
pub mod scene;
pub mod session;
pub mod solver;
pub mod topology;
pub mod world;

pub use attachment::{
    AttachmentDesc, AttachmentEvent, AttachmentEventKind, AttachmentHandle, AttachmentPoint,
    Attachments,
};
pub use cloth_set::{ClothHandle, ClothSet};
pub use contact::{ContactKey, ContactStage, MergeStep, NoContacts};
pub use error::ClothError;
pub use identity::{IdentityCounter, WorldId};
pub use registry::{Registry, SlotKey};
pub use scene::{RawHandle, SceneSnapshot};
pub use session::{RequestVerdict, Session};
pub use topology::{MeshFault, MeshTopology, TopologyEdge};
pub use world::{AttachChecks, BodyStatus, ClothWorld, WorldError};
