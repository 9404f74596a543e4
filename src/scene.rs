use vstd::prelude::*;
use crate::system::Fetched;
use crate::world::World;

verus! {

/// What a scene's update asks of the scheduler.
#[derive(Clone, Copy, Debug, PartialEq, Eq, Structural)]
pub enum Transaction {
    /// Keep running.
    Continue,
    /// Stop the run loop.
    Quit,
}

/// The host's lifecycle controller, driven by the scheduler.
pub trait Scene<C, R> {
    fn on_enter(&mut self, world: &mut World<C, R>);

    fn on_exit(&mut self, world: &mut World<C, R>);

    fn update(&mut self, world: &mut World<C, R>) -> Transaction;
}

/// A per-tick unit of logic that declares the data it borrows.
pub trait System<C, R> {
    /// The declared data shape, resolved in this order every tick.
    fn data(&self) -> crate::system::Data;

    fn init(&mut self, world: &mut World<C, R>);

    /// One tick, with the guards of `data` in declared order.
    fn run(&mut self, world: &mut World<C, R>, data: &Vec<Fetched>);

    fn dispose(&mut self, world: &mut World<C, R>);
}

} // verus!
