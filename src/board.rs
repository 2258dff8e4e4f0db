use vstd::prelude::*;

verus! {

/// Seeds in each field at the start of a game.
pub const INITIAL_SEEDS: i32 = 6;

#[derive(Debug, Clone, Copy, PartialEq, Eq, Structural)]
pub enum Player {
    Almuta,
    Batal,
}

#[derive(Debug, Clone, Copy, PartialEq, Eq, Structural)]
pub enum PitKind {
    AlmutaStash,
    AlmutaPit,
    BatalStash,
    BatalPit,
}

#[derive(Debug, Clone, Copy, PartialEq, Eq, Structural)]
pub struct Pit {
    pub value: i32,
    pub kind: PitKind,
}

pub open spec fn opposite_of(p: Player) -> Player {
    match p {
        Player::Almuta => Player::Batal,
        Player::Batal => Player::Almuta,
    }
}

/// Index of a player's store.
pub open spec fn store_of(p: Player) -> int {
    match p {
        Player::Almuta => 6,
        Player::Batal => 13,
    }
}

/// First index of a player's six fields.
pub open spec fn first_field_of(p: Player) -> int {
    match p {
        Player::Almuta => 0,
        Player::Batal => 7,
    }
}

/// Whether index `i` is one of the six fields of `p`.
pub open spec fn is_field_of(p: Player, i: int) -> bool {
    first_field_of(p) <= i < first_field_of(p) + 6
}

/// The kind of pit that stands at index `i` of a board.
pub open spec fn kind_at(i: int) -> PitKind {
    if 0 <= i < 6 {
        PitKind::AlmutaPit
    } else if i == 6 {
        PitKind::AlmutaStash
    } else if 7 <= i < 13 {
        PitKind::BatalPit
    } else {
        PitKind::BatalStash
    }
}

pub open spec fn is_store_kind(k: PitKind) -> bool {
    k == PitKind::AlmutaStash || k == PitKind::BatalStash
}

impl Player {
    pub fn opposite(self) -> (r: Player)
        ensures
            r == opposite_of(self),
    {
        match self {
            Player::Almuta => Player::Batal,
            Player::Batal => Player::Almuta,
        }
    }

    /// The sign that turns a score from player A's side into this player's.
    pub fn relative_factor(self) -> (r: i32)
        ensures
            r == (if self == Player::Almuta { 1i32 } else { -1i32 }),
    {
        match self {
            Player::Almuta => 1,
            Player::Batal => -1,
        }
    }
}

impl Pit {
    /// A pit at the start of a game: fields hold six seeds, stores none.
    pub fn new(kind: PitKind) -> (r: Pit)
        ensures
            r.kind == kind,
            r.value == (if is_store_kind(kind) { 0i32 } else { INITIAL_SEEDS }),
    {
        match kind {
            PitKind::AlmutaPit | PitKind::BatalPit => Pit { value: INITIAL_SEEDS, kind },
            PitKind::AlmutaStash | PitKind::BatalStash => Pit { value: 0, kind },
        }
    }

    /// Moves one seed from the hand being sown into this pit.
    pub fn add_seed(&mut self, seeds_to_distribute: &mut i32)
        requires
            old(self).value < i32::MAX,
            *old(seeds_to_distribute) > i32::MIN,
        ensures
            final(self).value == old(self).value + 1,
            final(self).kind == old(self).kind,
            *final(seeds_to_distribute) == *old(seeds_to_distribute) - 1,
    {
        self.value = self.value + 1;
        *seeds_to_distribute = *seeds_to_distribute - 1;
    }

    /// Whether this pit is one of `player`'s fields.
    pub fn is_player_pit(&self, player: Player) -> (r: bool)
        ensures
            r == (match player {
                Player::Almuta => self.kind == PitKind::AlmutaPit,
                Player::Batal => self.kind == PitKind::BatalPit,
            }),
    {
        match player {
            Player::Almuta => self.kind == PitKind::AlmutaPit,
            Player::Batal => self.kind == PitKind::BatalPit,
        }
    }
}

/// The board at the start of a game.
pub fn new_board() -> (r: [Pit; 14])
    ensures
        forall|i: int| 0 <= i < 14 ==> #[trigger] r@[i].kind == kind_at(i),
        forall|i: int|
            0 <= i < 14 ==> #[trigger] r@[i].value == (if i == 6 || i == 13 { 0i32 } else { INITIAL_SEEDS }),
{
    [
        Pit::new(PitKind::AlmutaPit),
        Pit::new(PitKind::AlmutaPit),
        Pit::new(PitKind::AlmutaPit),
        Pit::new(PitKind::AlmutaPit),
        Pit::new(PitKind::AlmutaPit),
        Pit::new(PitKind::AlmutaPit),
        Pit::new(PitKind::AlmutaStash),
        Pit::new(PitKind::BatalPit),
        Pit::new(PitKind::BatalPit),
        Pit::new(PitKind::BatalPit),
        Pit::new(PitKind::BatalPit),
        Pit::new(PitKind::BatalPit),
        Pit::new(PitKind::BatalPit),
        Pit::new(PitKind::BatalStash),
    ]
}

} // verus!
