use vstd::prelude::*;
use vstd::string::StringSliceAdditionalSpecFns;

verus! {

/// The four ratings of a part.
#[derive(Debug, Copy, Clone, PartialEq, Eq, Hash, Structural)]
pub enum Category {
    ExtremlyGoodLooking,
    Musical,
    Aerodynamic,
    Shiny,
}

impl Category {
    /// The place of this rating among the four ratings of a part.
    pub open spec fn spec_as_index(self) -> int {
        match self {
            Category::ExtremlyGoodLooking => 0,
            Category::Musical => 1,
            Category::Aerodynamic => 2,
            Category::Shiny => 3,
        }
    }

    /// The place of this rating among the four ratings of a part.
    pub fn as_index(self) -> (place: usize)
        ensures
            place == self.spec_as_index(),
    {
        match self {
            Category::ExtremlyGoodLooking => 0,
            Category::Musical => 1,
            Category::Aerodynamic => 2,
            Category::Shiny => 3,
        }
    }
}

/// A text that names no rating.
#[derive(Debug, Clone, Copy, PartialEq, Eq, Structural)]
pub struct InvalidCategory;

impl Category {
    /// The letter that stands for this rating.
    pub open spec fn letter(self) -> u8 {
        match self {
            Category::ExtremlyGoodLooking => 'x' as u8,
            Category::Musical => 'm' as u8,
            Category::Aerodynamic => 'a' as u8,
            Category::Shiny => 's' as u8,
        }
    }

    /// The rating that `s` stands for: `x`, `m`, `a` or `s`. Any other text
    /// is an error.
    pub fn from_str(s: &str) -> (parsed: Result<Category, InvalidCategory>)
        ensures
            match parsed {
                Ok(category) => s.spec_bytes() == seq![category.letter()],
                Err(_) => forall|category: Category| s.spec_bytes() != seq![category.letter()],
            },
    {
        let bytes = s.as_bytes();
        if bytes.len() != 1 {
            assert forall|category: Category| s.spec_bytes() != seq![category.letter()] by {
                assert(seq![category.letter()].len() == 1);
            }
            return Err(InvalidCategory);
        }
        let letter = bytes[0];
        let parsed = if letter == 'x' as u8 {
            Ok(Category::ExtremlyGoodLooking)
        } else if letter == 'm' as u8 {
            Ok(Category::Musical)
        } else if letter == 'a' as u8 {
            Ok(Category::Aerodynamic)
        } else if letter == 's' as u8 {
            Ok(Category::Shiny)
        } else {
            Err(InvalidCategory)
        };
        proof {
            match parsed {
                Ok(category) => {
                    assert(s.spec_bytes() =~= seq![category.letter()]);
                },
                Err(_) => {
                    assert forall|category: Category| s.spec_bytes() != seq![
                        category.letter(),
                    ] by {
                        assert(seq![category.letter()][0] == category.letter());
                    }
                },
            }
        }
        parsed
    }
}

} // verus!
