//! The commands of the server and their handlers.

pub mod command;
pub mod echo;
pub mod get;
pub mod info;
pub mod ping;
pub mod reply;
pub mod set;
pub mod word;

pub use self::command::Command;
pub use self::command::CommandError;
pub use self::echo::EchoCommand;
pub use self::get::GetCommand;
pub use self::info::InfoCommand;
pub use self::ping::PingCommand;
pub use self::reply::Reply;
pub use self::set::SetCommand;
