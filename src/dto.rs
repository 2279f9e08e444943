//! The domain vocabulary: resource classes and budget components, and the
//! keys under which a save file records them.
use vstd::prelude::*;
use vstd::string::StringSliceAdditionalSpecFns;

verus! {

/// The sixteen resources an empire stockpiles.
#[derive(Clone, Copy, Debug, PartialEq, Eq, Hash)]
pub enum ResourceClass {
    Energy,
    Minerals,
    Food,
    Physics,
    Society,
    Engineering,
    Influence,
    Unity,
    ConsumerGoods,
    Alloys,
    Motes,
    Gasses,
    Crystals,
    LivingMetal,
    Zro,
    DarkMatter,
}

/// The resource class at position `i` of the declaration order.
pub open spec fn class_at(i: int) -> ResourceClass {
    if i == 0 {
        ResourceClass::Energy
    } else if i == 1 {
        ResourceClass::Minerals
    } else if i == 2 {
        ResourceClass::Food
    } else if i == 3 {
        ResourceClass::Physics
    } else if i == 4 {
        ResourceClass::Society
    } else if i == 5 {
        ResourceClass::Engineering
    } else if i == 6 {
        ResourceClass::Influence
    } else if i == 7 {
        ResourceClass::Unity
    } else if i == 8 {
        ResourceClass::ConsumerGoods
    } else if i == 9 {
        ResourceClass::Alloys
    } else if i == 10 {
        ResourceClass::Motes
    } else if i == 11 {
        ResourceClass::Gasses
    } else if i == 12 {
        ResourceClass::Crystals
    } else if i == 13 {
        ResourceClass::LivingMetal
    } else if i == 14 {
        ResourceClass::Zro
    } else {
        ResourceClass::DarkMatter
    }
}

pub open spec fn class_index(c: ResourceClass) -> int {
    match c {
        ResourceClass::Energy => 0,
        ResourceClass::Minerals => 1,
        ResourceClass::Food => 2,
        ResourceClass::Physics => 3,
        ResourceClass::Society => 4,
        ResourceClass::Engineering => 5,
        ResourceClass::Influence => 6,
        ResourceClass::Unity => 7,
        ResourceClass::ConsumerGoods => 8,
        ResourceClass::Alloys => 9,
        ResourceClass::Motes => 10,
        ResourceClass::Gasses => 11,
        ResourceClass::Crystals => 12,
        ResourceClass::LivingMetal => 13,
        ResourceClass::Zro => 14,
        ResourceClass::DarkMatter => 15,
    }
}

/// The key a save file uses for a resource class.
pub open spec fn class_key(c: ResourceClass) -> Seq<u8> {
    match c {
        ResourceClass::Energy => "energy".spec_bytes(),
        ResourceClass::Minerals => "minerals".spec_bytes(),
        ResourceClass::Food => "food".spec_bytes(),
        ResourceClass::Physics => "physics_research".spec_bytes(),
        ResourceClass::Society => "society_research".spec_bytes(),
        ResourceClass::Engineering => "engineering_research".spec_bytes(),
        ResourceClass::Influence => "influence".spec_bytes(),
        ResourceClass::Unity => "unity".spec_bytes(),
        ResourceClass::ConsumerGoods => "consumer_goods".spec_bytes(),
        ResourceClass::Alloys => "alloys".spec_bytes(),
        ResourceClass::Motes => "volatile_motes".spec_bytes(),
        ResourceClass::Gasses => "exotic_gases".spec_bytes(),
        ResourceClass::Crystals => "rare_crystals".spec_bytes(),
        ResourceClass::LivingMetal => "sr_living_metal".spec_bytes(),
        ResourceClass::Zro => "sr_zro".spec_bytes(),
        ResourceClass::DarkMatter => "sr_dark_matter".spec_bytes(),
    }
}

pub const RESOURCE_CLASS_COUNT: usize = 16;

impl ResourceClass {
    /// The class at position `i` of the declaration order.
    pub fn from_index(i: usize) -> (r: ResourceClass)
        requires
            i < 16,
        ensures
            r == class_at(i as int),
            class_index(r) == i,
    {
        if i == 0 {
            ResourceClass::Energy
        } else if i == 1 {
            ResourceClass::Minerals
        } else if i == 2 {
            ResourceClass::Food
        } else if i == 3 {
            ResourceClass::Physics
        } else if i == 4 {
            ResourceClass::Society
        } else if i == 5 {
            ResourceClass::Engineering
        } else if i == 6 {
            ResourceClass::Influence
        } else if i == 7 {
            ResourceClass::Unity
        } else if i == 8 {
            ResourceClass::ConsumerGoods
        } else if i == 9 {
            ResourceClass::Alloys
        } else if i == 10 {
            ResourceClass::Motes
        } else if i == 11 {
            ResourceClass::Gasses
        } else if i == 12 {
            ResourceClass::Crystals
        } else if i == 13 {
            ResourceClass::LivingMetal
        } else if i == 14 {
            ResourceClass::Zro
        } else {
            ResourceClass::DarkMatter
        }
    }

}

/// A name under which a save file records something.
pub trait Key {
    spec fn key_spec(&self) -> Seq<u8>;

    fn key(&self) -> (r: &'static [u8])
        ensures
            r@ == self.key_spec(),
    ;
}

impl Key for ResourceClass {
    open spec fn key_spec(&self) -> Seq<u8> {
        class_key(*self)
    }

    fn key(&self) -> (r: &'static [u8]) {
        match self {
            ResourceClass::Energy => "energy".as_bytes(),
            ResourceClass::Minerals => "minerals".as_bytes(),
            ResourceClass::Food => "food".as_bytes(),
            ResourceClass::Physics => "physics_research".as_bytes(),
            ResourceClass::Society => "society_research".as_bytes(),
            ResourceClass::Engineering => "engineering_research".as_bytes(),
            ResourceClass::Influence => "influence".as_bytes(),
            ResourceClass::Unity => "unity".as_bytes(),
            ResourceClass::ConsumerGoods => "consumer_goods".as_bytes(),
            ResourceClass::Alloys => "alloys".as_bytes(),
            ResourceClass::Motes => "volatile_motes".as_bytes(),
            ResourceClass::Gasses => "exotic_gases".as_bytes(),
            ResourceClass::Crystals => "rare_crystals".as_bytes(),
            ResourceClass::LivingMetal => "sr_living_metal".as_bytes(),
            ResourceClass::Zro => "sr_zro".as_bytes(),
            ResourceClass::DarkMatter => "sr_dark_matter".as_bytes(),
        }
    }
}

/// The three parts of a month's budget.
#[derive(Clone, Copy, Debug, PartialEq, Eq, Hash)]
pub enum BudgetComponent {
    Income,
    Expenses,
    Balance,
}

pub open spec fn component_key(c: BudgetComponent) -> Seq<u8> {
    match c {
        BudgetComponent::Income => "income".spec_bytes(),
        BudgetComponent::Expenses => "expenses".spec_bytes(),
        BudgetComponent::Balance => "balance".spec_bytes(),
    }
}

impl Key for BudgetComponent {
    open spec fn key_spec(&self) -> Seq<u8> {
        component_key(*self)
    }

    fn key(&self) -> (r: &'static [u8]) {
        match self {
            BudgetComponent::Income => "income".as_bytes(),
            BudgetComponent::Expenses => "expenses".as_bytes(),
            BudgetComponent::Balance => "balance".as_bytes(),
        }
    }
}

} // verus!
