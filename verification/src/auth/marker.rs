//! One marker type per domain and per action.

use super::access::{ActionMarker, DomainMarker};
use super::model::{Action, Domain};
use vstd::prelude::*;

verus! {

#[derive(Debug, Clone, Copy)]
pub struct Positions;

impl DomainMarker for Positions {
    const DOMAIN: Domain = Domain::Positions;
}

#[derive(Debug, Clone, Copy)]
pub struct Nav;

impl DomainMarker for Nav {
    const DOMAIN: Domain = Domain::Nav;
}

#[derive(Debug, Clone, Copy)]
pub struct Transactions;

impl DomainMarker for Transactions {
    const DOMAIN: Domain = Domain::Transactions;
}

#[derive(Debug, Clone, Copy)]
pub struct Shareholders;

impl DomainMarker for Shareholders {
    const DOMAIN: Domain = Domain::Shareholders;
}

#[derive(Debug, Clone, Copy)]
pub struct MarketData;

impl DomainMarker for MarketData {
    const DOMAIN: Domain = Domain::MarketData;
}

#[derive(Debug, Clone, Copy)]
pub struct Reference;

impl DomainMarker for Reference {
    const DOMAIN: Domain = Domain::Reference;
}

#[derive(Debug, Clone, Copy)]
pub struct View;

impl ActionMarker for View {
    const ACTION: Action = Action::View;
}

#[derive(Debug, Clone, Copy)]
pub struct Export;

impl ActionMarker for Export {
    const ACTION: Action = Action::Export;
}

#[derive(Debug, Clone, Copy)]
pub struct Import;

impl ActionMarker for Import {
    const ACTION: Action = Action::Import;
}

#[derive(Debug, Clone, Copy)]
pub struct Configure;

impl ActionMarker for Configure {
    const ACTION: Action = Action::Configure;
}

/// Every marker stands for what it is named after.
pub proof fn law_markers_stand_for_what_they_are_named_after()
    ensures
        Positions::DOMAIN is Positions,
        Nav::DOMAIN is Nav,
        Transactions::DOMAIN is Transactions,
        Shareholders::DOMAIN is Shareholders,
        MarketData::DOMAIN is MarketData,
        Reference::DOMAIN is Reference,
        View::ACTION is View,
        Export::ACTION is Export,
        Import::ACTION is Import,
        Configure::ACTION is Configure,
{
}

} // verus!
