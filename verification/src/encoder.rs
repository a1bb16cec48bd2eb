//! Writing a TNG stream.

use crate::bytes::{be32, push_be32};
use crate::channel::{
    joined, lemma_blank, lemma_joined_adds, lemma_joined_one, lemma_reached, lemma_reached_itself,
    lemma_since, lemma_since_adds, lemma_since_itself, lemma_since_joins, lemma_sink_reached,
    lemma_source_reached, port_call, reached, sink_call, ByteSink, ByteSource, Channel, History,
};
use crate::chunk::{
    chunk_bytes, chunk_parts, emit_chunk, lemma_taken, lemma_wrote, len32, low_u32,
    parts_make_the_chunk, taken, wrote,
};
use crate::format::{
    TngEncoder, TngFault, TngImageInfo, TngTileConfig, CHUNK_IEND, CHUNK_IHDR, CHUNK_TDAT,
    CHUNK_THDR, CHUNK_TIDX, TNG_MAGIC,
};
use crate::filter::lemma_position;
use crate::region::{cut, cut_region};
use crate::tile::{compress_tile_payload, tile_lost, tile_written, FILTER_LIMIT};
use rayon::iter::{IntoParallelRefIterator, ParallelIterator};
use vstd::prelude::*;

verus! {

#[verifier::external_type_specification]
#[verifier::external_body]
pub struct ExThreadPool(rayon::ThreadPool);

#[verifier::external_type_specification]
#[verifier::external_body]
pub struct ExThreadPoolBuildError(rayon::ThreadPoolBuildError);

/// The data of the image header chunk.
pub open spec fn ihdr_data(info: TngImageInfo) -> Seq<u8> {
    be32(info.width) + be32(info.height) + seq![info.bit_depth, info.color_type, 0u8, 0u8, 0u8]
}

/// The data of the tile grid header chunk.
pub open spec fn thdr_data(config: TngTileConfig) -> Seq<u8> {
    be32(config.num_tiles_x) + be32(config.num_tiles_y) + be32(config.tile_width) + be32(
        config.tile_height,
    ) + be32(config.edge_width) + be32(config.edge_height)
}

/// What comes before the tiles.
pub open spec fn stream_head(info: TngImageInfo, config: TngTileConfig) -> Seq<u8> {
    TNG_MAGIC@ + chunk_bytes(CHUNK_IHDR@, ihdr_data(info)) + chunk_bytes(
        CHUNK_THDR@,
        thdr_data(config),
    )
}

/// The chunks of some tiles.
pub open spec fn tiles_bytes(tiles: Seq<Seq<u8>>) -> Seq<u8>
    decreases tiles.len(),
{
    if tiles.len() == 0 {
        Seq::empty()
    } else {
        tiles_bytes(tiles.drop_last()) + chunk_bytes(CHUNK_TDAT@, tiles.last())
    }
}

/// Some numbers, four bytes each.
pub open spec fn sizes_bytes(sizes: Seq<u32>) -> Seq<u8>
    decreases sizes.len(),
{
    if sizes.len() == 0 {
        Seq::empty()
    } else {
        sizes_bytes(sizes.drop_last()) + be32(sizes.last())
    }
}

/// The lengths of some tile payloads as they are written.
pub open spec fn tile_sizes(tiles: Seq<Seq<u8>>) -> Seq<u32> {
    Seq::new(tiles.len(), |i: int| len32(tiles[i].len()))
}

/// The data of the tile index chunk.
pub open spec fn index_data(tiles: Seq<Seq<u8>>) -> Seq<u8> {
    sizes_bytes(tile_sizes(tiles))
}

/// A whole stream.
pub open spec fn stream_bytes(
    info: TngImageInfo,
    config: TngTileConfig,
    tiles: Seq<Seq<u8>>,
) -> Seq<u8> {
    stream_head(info, config) + tiles_bytes(tiles) + chunk_bytes(CHUNK_TIDX@, index_data(tiles))
        + chunk_bytes(CHUNK_IEND@, Seq::empty())
}

/// What comes before the tiles, as it is written part by part.
pub open spec fn head_parts(info: TngImageInfo, config: TngTileConfig) -> Seq<Seq<u8>> {
    seq![TNG_MAGIC@] + chunk_parts(CHUNK_IHDR@, ihdr_data(info)) + chunk_parts(
        CHUNK_THDR@,
        thdr_data(config),
    )
}

/// The parts of the chunks of some tiles.
pub open spec fn tiles_parts(tiles: Seq<Seq<u8>>) -> Seq<Seq<u8>>
    decreases tiles.len(),
{
    if tiles.len() == 0 {
        Seq::empty()
    } else {
        tiles_parts(tiles.drop_last()) + chunk_parts(CHUNK_TDAT@, tiles.last())
    }
}

/// The parts of a whole stream.
pub open spec fn stream_parts(
    info: TngImageInfo,
    config: TngTileConfig,
    tiles: Seq<Seq<u8>>,
) -> Seq<Seq<u8>> {
    head_parts(info, config) + tiles_parts(tiles) + chunk_parts(CHUNK_TIDX@, index_data(tiles))
        + chunk_parts(CHUNK_IEND@, Seq::empty())
}

/// The parts that are written before the tiles make up what comes before the tiles.
pub proof fn parts_make_the_head(info: TngImageInfo, config: TngTileConfig)
    ensures
        joined(head_parts(info, config)) == stream_head(info, config),
{
    let ihdr = chunk_parts(CHUNK_IHDR@, ihdr_data(info));
    let thdr = chunk_parts(CHUNK_THDR@, thdr_data(config));
    lemma_joined_one(TNG_MAGIC@);
    parts_make_the_chunk(CHUNK_IHDR@, ihdr_data(info));
    parts_make_the_chunk(CHUNK_THDR@, thdr_data(config));
    lemma_joined_adds(seq![TNG_MAGIC@], ihdr);
    lemma_joined_adds(seq![TNG_MAGIC@] + ihdr, thdr);
}

/// The parts of some tiles make up their chunks.
pub proof fn parts_make_the_tiles(tiles: Seq<Seq<u8>>)
    ensures
        joined(tiles_parts(tiles)) == tiles_bytes(tiles),
    decreases tiles.len(),
{
    if tiles.len() > 0 {
        parts_make_the_tiles(tiles.drop_last());
        parts_make_the_chunk(CHUNK_TDAT@, tiles.last());
        lemma_joined_adds(
            tiles_parts(tiles.drop_last()),
            chunk_parts(CHUNK_TDAT@, tiles.last()),
        );
    }
}

/// The parts of a stream make up the stream.
pub proof fn parts_make_the_stream(
    info: TngImageInfo,
    config: TngTileConfig,
    tiles: Seq<Seq<u8>>,
)
    ensures
        joined(stream_parts(info, config, tiles)) == stream_bytes(info, config, tiles),
{
    let head = head_parts(info, config);
    let body = tiles_parts(tiles);
    let index = chunk_parts(CHUNK_TIDX@, index_data(tiles));
    parts_make_the_head(info, config);
    parts_make_the_tiles(tiles);
    parts_make_the_chunk(CHUNK_TIDX@, index_data(tiles));
    parts_make_the_chunk(CHUNK_IEND@, Seq::empty());
    lemma_joined_adds(head, body);
    lemma_joined_adds(head + body, index);
    lemma_joined_adds(head + body + index, chunk_parts(CHUNK_IEND@, Seq::empty()));
}

impl TngEncoder {
    /// The bytes of a row of pixels.
    pub open spec fn stride(self) -> int {
        self.info.width * self.bytes_per_pixel
    }

    /// The bytes of a band, which is as high as one row of tiles.
    pub open spec fn band_len(self, ty: int) -> int {
        self.config.height_of(ty) * self.stride()
    }

    /// Where the pixels of band `ty` start. All bands but the last are equally high.
    pub open spec fn band_start(self, ty: int) -> int {
        ty * (self.config.tile_height * self.stride())
    }

    /// The pixels of band `ty`.
    pub open spec fn band(self, pixels: Seq<u8>, ty: int) -> Seq<u8> {
        pixels.subrange(self.band_start(ty), self.band_start(ty) + self.band_len(ty))
    }

    /// The pixels of tile `tx` of a band.
    pub open spec fn tile_of(self, band: Seq<u8>, ty: int, tx: int) -> Seq<u8> {
        cut(
            band,
            self.stride(),
            tx * self.config.tile_width * self.bytes_per_pixel,
            self.config.width_of(tx) * self.bytes_per_pixel,
            self.config.height_of(ty),
        )
    }

    /// Whether `payload` is what becomes of tile `tx` of a band.
    pub open spec fn tile_made(self, band: Seq<u8>, ty: int, tx: int, payload: Seq<u8>) -> bool {
        tile_written(
            payload,
            self.tile_of(band, ty, tx),
            self.config.width_of(tx),
            self.config.height_of(ty),
            self.bytes_per_pixel as int,
            self.config.compression_algo,
            self.config.filter_algo,
        ) || tile_lost(payload, self.config.compression_algo, self.config.filter_algo)
    }

    /// The bytes of the first `bands` bands.
    pub open spec fn read_len(self, bands: int) -> int {
        if bands == 0 {
            0
        } else {
            self.band_start(bands - 1) + self.band_len(bands - 1)
        }
    }

    /// Whether `tiles` are what becomes of the first tiles of the image, row by row.
    pub open spec fn tiles_made(self, pixels: Seq<u8>, tiles: Seq<Seq<u8>>) -> bool {
        let per_band = self.config.num_tiles_x as int;
        forall|k: int|
            0 <= k < tiles.len() ==> self.tile_made(
                self.band(pixels, k / per_band),
                k / per_band,
                k % per_band,
                #[trigger] tiles[k],
            )
    }

    /// Whether a buffer for band `ty` can be had.
    pub open spec fn band_fits(self, ty: int) -> bool {
        self.band_len(ty) <= isize::MAX
    }

    /// Whether the tiles of band `ty` lie within the image. Where the band has no height
    /// they need only have a width that can be handled.
    pub open spec fn tiles_fit(self, ty: int) -> bool {
        let bpp = self.bytes_per_pixel;
        let config = self.config;
        config.num_tiles_x >= 1 ==> if config.height_of(ty) > 0 {
            (config.num_tiles_x - 1) * config.tile_width * bpp + config.edge_width * bpp
                <= self.stride()
        } else {
            config.filter_algo < FILTER_LIMIT ==> {
                &&& config.edge_width * bpp <= usize::MAX
                &&& config.num_tiles_x >= 2 ==> config.tile_width * bpp <= usize::MAX
            }
        }
    }

    /// Whether all bands and their tiles can be handled.
    pub open spec fn encodable(self) -> bool {
        &&& self.stride() <= usize::MAX
        &&& forall|ty: int|
            0 <= ty < self.config.num_tiles_y ==> #[trigger] self.band_fits(ty) && self.tiles_fit(
                ty,
            )
    }

    /// What `tiles_fit` gives for one tile.
    pub proof fn lemma_tile_fits(self, ty: int, tx: int)
        requires
            self.stride() <= usize::MAX,
            self.tiles_fit(ty),
            0 <= ty < self.config.num_tiles_y,
            0 <= tx < self.config.num_tiles_x,
        ensures
            0 <= self.config.width_of(tx) * self.bytes_per_pixel,
            0 <= tx * self.config.tile_width * self.bytes_per_pixel,
            self.config.height_of(ty) > 0 ==> tx * self.config.tile_width * self.bytes_per_pixel
                + self.config.width_of(tx) * self.bytes_per_pixel <= self.stride(),
            self.config.height_of(ty) > 0 || self.config.filter_algo < FILTER_LIMIT
                ==> self.config.width_of(tx) * self.bytes_per_pixel <= usize::MAX,
    {
        let b = self.bytes_per_pixel as int;
        let tw = self.config.tile_width as int;
        let ew = self.config.edge_width as int;
        let last = self.config.num_tiles_x - 1;
        assert(tw * b >= 0 && ew * b >= 0) by (nonlinear_arith)
            requires
                tw >= 0,
                ew >= 0,
                b >= 0,
        ;
        assert(0 <= tx * tw * b) by (nonlinear_arith)
            requires
                tx >= 0,
                tw >= 0,
                b >= 0,
        ;
        if self.config.height_of(ty) > 0 && tx < last {
            assert(tx * tw * b + tw * b <= last * tw * b) by (nonlinear_arith)
                requires
                    tx + 1 <= last,
                    tw >= 0,
                    b >= 0,
            ;
        }
    }

    /// The bytes of band `ty`, if a buffer for it can be had.
    fn band_bytes(&self, ty: u32, stride: usize) -> (bytes: Option<usize>)
        requires
            ty < self.config.num_tiles_y,
            stride == self.stride(),
        ensures
            match bytes {
                Some(bytes) => self.band_fits(ty as int) && bytes == self.band_len(ty as int),
                None => !self.band_fits(ty as int),
            },
    {
        match self.config.tile_height_at(ty).checked_mul(stride) {
            Some(bytes) => if bytes <= isize::MAX as usize {
                Some(bytes)
            } else {
                None
            },
            None => None,
        }
    }

    /// Tells whether the tiles of band `ty` lie within the image.
    fn is_tiling(&self, ty: u32, stride: usize) -> (yes: bool)
        requires
            ty < self.config.num_tiles_y,
            stride == self.stride(),
        ensures
            yes == self.tiles_fit(ty as int),
    {
        let config: &TngTileConfig = &self.config;
        if config.num_tiles_x == 0 {
            return true;
        }
        let bpp: u128 = self.bytes_per_pixel as u128;
        let ghost t = config.tile_width as int;
        let ghost n = config.num_tiles_x as int;
        proof {
            lemma_narrow_product(config.edge_width as int, bpp as int);
            lemma_narrow_product(t, bpp as int);
            assert((n - 1) * t * bpp == (n - 1) * (t * bpp)) by (nonlinear_arith);
        }
        let edge: u128 = config.edge_width as u128 * bpp;
        let run: u128 = config.tile_width as u128 * bpp;
        if config.tile_height_at(ty) > 0 {
            if config.num_tiles_x == 1 {
                assert((n - 1) * (t * bpp) == 0) by (nonlinear_arith)
                    requires
                        n == 1,
                ;
                return edge <= stride as u128;
            }
            if run > stride as u128 {
                assert((n - 1) * (t * bpp) >= t * bpp) by (nonlinear_arith)
                    requires
                        n >= 2,
                        t * bpp >= 0,
                ;
                return false;
            }
            proof {
                lemma_narrow_product(n - 1, run as int);
            }
            (config.num_tiles_x - 1) as u128 * run + edge <= stride as u128
        } else {
            config.filter_algo >= FILTER_LIMIT || (edge <= usize::MAX as u128 && (
            config.num_tiles_x == 1 || run <= usize::MAX as u128))
        }
    }
}

/// The product of a 32-bit and a machine-sized number has room to spare in 128 bits.
proof fn lemma_narrow_product(a: int, b: int)
    requires
        0 <= a <= u32::MAX,
        0 <= b <= usize::MAX,
    ensures
        0 <= a * b <= 0xffff_ffff * 0xffff_ffff_ffff_ffff,
{
    assert(0 <= a * b <= 0xffff_ffff * 0xffff_ffff_ffff_ffff) by (nonlinear_arith)
        requires
            0 <= a <= 0xffff_ffff,
            0 <= b <= 0xffff_ffff_ffff_ffff,
    ;
}

/// Whether `before` was written, and then writing stopped at some part of a chunk, with which
/// the calls end.
pub open spec fn stopped_in_chunk(
    before: Seq<Seq<u8>>,
    h: History,
    tag: Seq<u8>,
    data: Seq<u8>,
) -> bool {
    let parts = chunk_parts(tag, data);
    &&& h.fails_last()
    &&& exists|k: int|
        0 <= k < parts.len() && h.writes() == before + #[trigger] parts.take(k) && h.refused()
            == seq![parts[k]]
}

impl TngEncoder {
    /// What comes before the tiles.
    pub open spec fn head(self) -> Seq<u8> {
        stream_head(self.info, self.config)
    }

    /// The parts that are written before the tiles.
    pub open spec fn head_parts(self) -> Seq<Seq<u8>> {
        head_parts(self.info, self.config)
    }

    /// The calls of `h`, and before them those that write what comes before the tiles.
    pub open spec fn after_head(self, h: History) -> History {
        taken(self.head_parts()).plus(h)
    }

    /// One read was made for each of the first `bands` bands, each of the size of the band.
    pub open spec fn bands_read(self, h: History, bands: int) -> bool {
        &&& h.reads().len() == bands
        &&& forall|i: int| 0 <= i < bands ==> (#[trigger] h.reads()[i]).len() == self.band_len(i)
    }

    /// Everything was read and written.
    pub open spec fn finished(self, h: History, tiles: Seq<Seq<u8>>) -> bool {
        &&& self.encodable()
        &&& h.clean()
        &&& h.writes() == stream_parts(self.info, self.config, tiles)
        &&& self.all_tiles(h, tiles)
    }

    /// All bands were read, and `tiles` are what became of them.
    pub open spec fn all_tiles(self, h: History, tiles: Seq<Seq<u8>>) -> bool {
        &&& tiles.len() == self.config.num_tiles_y * self.config.num_tiles_x
        &&& self.bands_read(h, self.config.num_tiles_y as int)
        &&& h.got().len() == self.read_len(self.config.num_tiles_y as int)
        &&& self.tiles_made(h.got(), tiles)
    }

    /// The headers were refused in some part, before anything was read.
    pub open spec fn stopped_in_head(
        self,
        h: History,
        tiles: Seq<Seq<u8>>,
        before: Seq<Seq<u8>>,
        tag: Seq<u8>,
        data: Seq<u8>,
    ) -> bool {
        &&& h.reads().len() == 0 && h.short().len() == 0 && tiles.len() == 0
        &&& stopped_in_chunk(before, h, tag, data)
    }

    /// The tiles of the first `bands` bands were written, and nothing has failed.
    spec fn rows_written(self, h: History, tiles: Seq<Seq<u8>>, bands: int) -> bool {
        &&& h.clean()
        &&& h.writes() == self.head_parts() + tiles_parts(tiles)
        &&& tiles.len() == bands * self.config.num_tiles_x
        &&& self.tiles_made(h.got(), tiles)
    }

    /// Band `ty` could not be read.
    pub open spec fn stopped_at_band(self, h: History, tiles: Seq<Seq<u8>>, ty: int) -> bool {
        &&& 0 <= ty < self.config.num_tiles_y
        &&& h.refused().len() == 0
        &&& h.fails_last()
        &&& h.short() == seq![self.band_len(ty) as nat]
        &&& self.bands_read(h, ty)
        &&& h.got().len() == self.band_start(ty)
        &&& tiles.len() == ty * self.config.num_tiles_x
        &&& h.writes() == self.head_parts() + tiles_parts(tiles)
        &&& self.tiles_made(h.got(), tiles)
    }

    /// The last of `tiles`, which belongs to band `ty`, was refused in some part.
    pub open spec fn stopped_in_tile(self, h: History, tiles: Seq<Seq<u8>>, ty: int) -> bool {
        &&& 0 <= ty < self.config.num_tiles_y
        &&& h.short().len() == 0
        &&& self.bands_read(h, ty + 1)
        &&& h.got().len() == self.band_start(ty) + self.band_len(ty)
        &&& ty * self.config.num_tiles_x < tiles.len() <= (ty + 1) * self.config.num_tiles_x
        &&& stopped_in_chunk(
            self.head_parts() + tiles_parts(tiles.drop_last()),
            h,
            CHUNK_TDAT@,
            tiles.last(),
        )
        &&& self.tiles_made(h.got(), tiles)
    }

    /// A chunk after the tiles was refused in some part.
    pub open spec fn stopped_in_tail(
        self,
        h: History,
        tiles: Seq<Seq<u8>>,
        before: Seq<Seq<u8>>,
        tag: Seq<u8>,
        data: Seq<u8>,
    ) -> bool {
        &&& h.short().len() == 0
        &&& stopped_in_chunk(self.head_parts() + tiles_parts(tiles) + before, h, tag, data)
        &&& self.all_tiles(h, tiles)
    }

    /// Band `ty` was not read because it does not fit, or read and not written because its
    /// tiles do not fit.
    pub open spec fn faulted_at_band(self, h: History, tiles: Seq<Seq<u8>>, ty: int) -> bool {
        &&& 0 <= ty < self.config.num_tiles_y
        &&& tiles.len() == ty * self.config.num_tiles_x
        &&& {
            ||| self.bands_read(h, ty) && h.got().len() == self.band_start(ty) && !self.band_fits(
                ty,
            )
            ||| self.bands_read(h, ty + 1) && h.got().len() == self.band_start(ty) + self.band_len(
                ty,
            ) && !self.tiles_fit(ty)
        }
    }
}

/// Whether a run that ended in `end` made the calls `h`, and no others.
/// `tiles` are the payloads of the tiles that were written or refused.
pub open spec fn encoder_run(
    enc: TngEncoder,
    h: History,
    end: Result<i32, TngFault>,
    tiles: Seq<Seq<u8>>,
) -> bool {
    match end {
        Err(TngFault::NoThreads) => {
            &&& h.clean() && h.reads().len() == 0 && tiles.len() == 0
            &&& h.writes() == enc.head_parts()
        },
        Err(TngFault::Malformed) => {
            &&& h.clean()
            &&& h.writes() == enc.head_parts() + tiles_parts(tiles)
            &&& enc.tiles_made(h.got(), tiles)
            &&& {
                ||| enc.stride() > usize::MAX && h.reads().len() == 0 && tiles.len() == 0
                ||| exists|ty: int| #[trigger] enc.faulted_at_band(h, tiles, ty)
            }
        },
        Err(TngFault::Endless) => false,
        Ok(code) => if code == 0 {
            enc.finished(h, tiles)
        } else if code == -2 {
            &&& h.reads().len() == 0 && h.short().len() == 0 && tiles.len() == 0
            &&& h.fails_last() && h.writes().len() == 0 && h.refused() == seq![TNG_MAGIC@]
        } else if code == -3 {
            enc.stopped_in_head(h, tiles, seq![TNG_MAGIC@], CHUNK_IHDR@, ihdr_data(enc.info))
        } else if code == -4 {
            enc.stopped_in_head(
                h,
                tiles,
                seq![TNG_MAGIC@] + chunk_parts(CHUNK_IHDR@, ihdr_data(enc.info)),
                CHUNK_THDR@,
                thdr_data(enc.config),
            )
        } else if code == -5 {
            exists|ty: int| #[trigger] enc.stopped_at_band(h, tiles, ty)
        } else if code == -6 {
            exists|ty: int| #[trigger] enc.stopped_in_tile(h, tiles, ty)
        } else if code == -7 {
            enc.stopped_in_tail(h, tiles, Seq::empty(), CHUNK_TIDX@, index_data(tiles))
        } else if code == -8 {
            enc.stopped_in_tail(
                h,
                tiles,
                chunk_parts(CHUNK_TIDX@, index_data(tiles)),
                CHUNK_IEND@,
                Seq::empty(),
            )
        } else {
            false
        },
    }
}

/// A run over bands and tiles that can all be handled does not end in a fault of theirs.
pub proof fn encodable_runs_are_sound(enc: TngEncoder, h: History, tiles: Seq<Seq<u8>>)
    requires
        enc.encodable(),
    ensures
        !encoder_run(enc, h, Err(TngFault::Malformed), tiles),
{
    assert forall|ty: int| !#[trigger] enc.faulted_at_band(h, tiles, ty) by {
        if 0 <= ty < enc.config.num_tiles_y {
            assert(enc.band_fits(ty));
        }
    }
}

/// Cuts one tile out of a band and compresses it.
pub fn encode_tile(enc: &TngEncoder, band: &[u8], ty: u32, tx: u32) -> (payload: Vec<u8>)
    requires
        enc.stride() <= usize::MAX,
        enc.tiles_fit(ty as int),
        ty < enc.config.num_tiles_y,
        tx < enc.config.num_tiles_x,
        band@.len() == enc.band_len(ty as int),
    ensures
        enc.tile_made(band@, ty as int, tx as int, payload@),
{
    let height: usize = enc.config.tile_height_at(ty);
    let width: usize = enc.config.tile_width_at(tx);
    let bpp: usize = enc.bytes_per_pixel;
    proof {
        enc.lemma_tile_fits(ty as int, tx as int);
    }
    let tile: Vec<u8> = if height > 0 {
        proof {
            assert(tx * enc.config.tile_width <= usize::MAX || bpp == 0) by (nonlinear_arith)
                requires
                    tx * enc.config.tile_width * bpp <= usize::MAX,
                    0 <= tx * enc.config.tile_width,
                    0 <= bpp,
            ;
        }
        let stride: usize = enc.info.width as usize * bpp;
        let offset: usize = if bpp == 0 {
            assert(tx * enc.config.tile_width * bpp == 0) by (nonlinear_arith)
                requires
                    bpp == 0,
            ;
            0
        } else {
            tx as usize * enc.config.tile_width as usize * bpp
        };
        cut_region(band, stride, offset, width * bpp, height)
    } else {
        Vec::new()
    };
    proof {
        if height == 0 {
            assert(height * (width * bpp) == 0) by (nonlinear_arith)
                requires
                    height == 0,
            ;
            assert(enc.tile_of(band@, ty as int, tx as int).len() == 0);
            assert(tile@ =~= enc.tile_of(band@, ty as int, tx as int));
        }
    }
    compress_tile_payload(
        &tile,
        width,
        height,
        bpp,
        enc.config.compression_algo,
        enc.config.filter_algo,
    )
}

/// A pool of `threads` threads, from `rayon::ThreadPoolBuilder::build`. Whether it can
/// be had depends on the machine, so nothing is claimed of the result.
#[verifier::external_body]
fn build_pool(threads: usize) -> (pool: Result<rayon::ThreadPool, rayon::ThreadPoolBuildError>) {
    rayon::ThreadPoolBuilder::new().num_threads(threads).build()
}

/// Encodes some tiles of a band on the threads of a pool, through
/// `rayon::ThreadPool::install` and rayon's parallel `map` and `collect`. Claimed: there
/// is one payload for each column, in the order of the columns, and each is what a call
/// of `encode_tile` returned for that column.
#[verifier::external_body]
fn encode_tiles(
    pool: &rayon::ThreadPool,
    enc: &TngEncoder,
    band: &[u8],
    ty: u32,
    columns: &Vec<u32>,
) -> (payloads: Vec<Vec<u8>>)
    requires
        enc.stride() <= usize::MAX,
        enc.tiles_fit(ty as int),
        ty < enc.config.num_tiles_y,
        band@.len() == enc.band_len(ty as int),
        forall|i: int| 0 <= i < columns@.len() ==> #[trigger] columns@[i] < enc.config.num_tiles_x,
    ensures
        payloads@.len() == columns@.len(),
        forall|i: int|
            0 <= i < columns@.len() ==> enc.tile_made(
                band@,
                ty as int,
                columns@[i] as int,
                (#[trigger] payloads@[i])@,
            ),
{
    pool.install(|| columns.par_iter().map(|tx| encode_tile(enc, band, ty, *tx)).collect())
}

/// The column numbers of a row of tiles.
fn columns_up_to(count: u32) -> (columns: Vec<u32>)
    ensures
        columns@.len() == count,
        forall|i: int| 0 <= i < count ==> columns@[i] == i,
{
    let mut columns: Vec<u32> = Vec::new();
    let mut tx: u32 = 0;
    while tx < count
        invariant
            tx <= count,
            columns@.len() == tx,
            forall|i: int| 0 <= i < tx ==> columns@[i] == i,
        decreases count - tx,
    {
        columns.push(tx);
        tx += 1;
    }
    columns
}

/// The data of the tile index chunk.
fn index_payload(sizes: &Vec<u32>) -> (payload: Vec<u8>)
    ensures
        payload@ == sizes_bytes(sizes@),
{
    let mut payload: Vec<u8> = Vec::new();
    let mut i: usize = 0;
    assert(sizes@.take(0) =~= Seq::<u32>::empty());
    while i < sizes.len()
        invariant
            i <= sizes@.len(),
            payload@ == sizes_bytes(sizes@.take(i as int)),
        decreases sizes@.len() - i,
    {
        push_be32(&mut payload, sizes[i]);
        i += 1;
        assert(sizes@.take(i as int).drop_last() =~= sizes@.take(i - 1));
    }
    assert(sizes@.take(i as int) =~= sizes@);
    payload
}

/// Writes a chunk. The calls are looked at from some point on, after those of `first`.
fn put_chunk<C: ByteSink>(
    io: &mut Channel<C>,
    tag: [u8; 4],
    data: &[u8],
    Ghost(first): Ghost<History>,
    Ghost(h0): Ghost<History>,
) -> (taken: bool)
    requires
        old(io)@.follows(h0),
        first.plus(old(io)@.since(h0)).clean(),
    ensures
        reached(sink_call::<C>(), *old(io), *final(io)),
        final(io)@.follows(h0),
        ({
            let before = first.plus(old(io)@.since(h0));
            let after = first.plus(final(io)@.since(h0));
            &&& after.reads() == before.reads()
            &&& after.got() == before.got()
            &&& after.short().len() == 0
            &&& taken ==> after.refused().len() == 0 && after.writes() == before.writes()
                + chunk_parts(tag@, data@)
            &&& !taken ==> stopped_in_chunk(before.writes(), after, tag@, data@)
        }),
{
    let ghost h1 = io@;
    let ghost before = first.plus(io@.since(h0));
    let taken = emit_chunk(io, tag, data);
    proof {
        lemma_since_adds(first, h0, h1, io@);
        let added = io@.since(h1);
        let after = first.plus(io@.since(h0));
        let parts = chunk_parts(tag@, data@);
        lemma_nothing_read(before, added, after);
        if taken {
            assert(after.writes() == before.writes() + parts);
        } else {
            let k = choose|k: int|
                0 <= k < parts.len() && added.writes() == #[trigger] parts.take(k)
                    && added.refused() == seq![parts[k]];
            assert(after.writes() == before.writes() + parts.take(k));
            assert(after.refused() =~= seq![parts[k]]);
        }
    }
    taken
}

/// Calls that read nothing.
proof fn lemma_nothing_read(before: History, added: History, after: History)
    requires
        added.reads().len() == 0,
        added.short().len() == 0,
        after.reads() == before.reads() + added.reads(),
        after.short() == before.short() + added.short(),
    ensures
        after.reads() == before.reads(),
        after.got() == before.got(),
        after.short() == before.short(),
{
    assert(after.reads() =~= before.reads());
    assert(after.short() =~= before.short());
}

/// Nothing, and then the calls of `h`.
proof fn lemma_blank_first(h: History)
    ensures
        History::blank().plus(h) == h,
{
    assert(History::blank().plus(h).calls =~= h.calls);
}

/// Writes what comes before the tiles.
fn write_head<C: ByteSink>(enc: &TngEncoder, io: &mut Channel<C>) -> (code: i32)
    ensures
        reached(sink_call::<C>(), *old(io), *final(io)),
        -4 <= code <= 0,
        code == 0 ==> final(io)@.since(old(io)@) == taken(enc.head_parts()),
        code != 0 ==> encoder_run(*enc, final(io)@.since(old(io)@), Ok(code), Seq::empty()),
{
    let ghost c0 = *io;
    let ghost h0 = io@;
    let ghost blank = History::blank();
    proof {
        lemma_since_itself(h0);
        lemma_blank();
        lemma_since(h0, h0);
    }
    if !io.send(&TNG_MAGIC) {
        assert(io@.since(h0).refused() =~= seq![TNG_MAGIC@]);
        return -2;
    }
    let ghost c1 = *io;
    proof {
        assert(io@.since(h0).writes() =~= seq![TNG_MAGIC@]);
        lemma_blank_first(io@.since(h0));
    }
    let mut ihdr_payload: Vec<u8> = Vec::new();
    push_be32(&mut ihdr_payload, enc.info.width);
    push_be32(&mut ihdr_payload, enc.info.height);
    ihdr_payload.push(enc.info.bit_depth);
    ihdr_payload.push(enc.info.color_type);
    ihdr_payload.push(0x00);
    ihdr_payload.push(0x00);
    ihdr_payload.push(0x00);
    assert(ihdr_payload@ =~= ihdr_data(enc.info));
    let taken: bool = put_chunk(io, CHUNK_IHDR, &ihdr_payload, Ghost(blank), Ghost(h0));
    proof {
        lemma_reached(sink_call::<C>(), c0, c1, *io);
        lemma_blank_first(io@.since(h0));
    }
    if !taken {
        return -3;
    }
    let ghost c2 = *io;
    let mut thdr_payload: Vec<u8> = Vec::new();
    push_be32(&mut thdr_payload, enc.config.num_tiles_x);
    push_be32(&mut thdr_payload, enc.config.num_tiles_y);
    push_be32(&mut thdr_payload, enc.config.tile_width);
    push_be32(&mut thdr_payload, enc.config.tile_height);
    push_be32(&mut thdr_payload, enc.config.edge_width);
    push_be32(&mut thdr_payload, enc.config.edge_height);
    assert(thdr_payload@ =~= thdr_data(enc.config));
    let taken: bool = put_chunk(io, CHUNK_THDR, &thdr_payload, Ghost(blank), Ghost(h0));
    proof {
        lemma_reached(sink_call::<C>(), c0, c2, *io);
        lemma_blank_first(io@.since(h0));
    }
    if !taken {
        return -4;
    }
    proof {
        lemma_wrote(io@.since(h0), enc.head_parts());
    }
    0
}

/// Writes what comes after the tiles.
fn write_tail<C: ByteSink>(
    enc: &TngEncoder,
    io: &mut Channel<C>,
    sizes: &Vec<u32>,
    Ghost(tiles): Ghost<Seq<Seq<u8>>>,
    Ghost(h0): Ghost<History>,
) -> (code: i32)
    requires
        old(io)@.follows(h0),
        enc.after_head(old(io)@.since(h0)).clean(),
        enc.after_head(old(io)@.since(h0)).writes() == enc.head_parts() + tiles_parts(tiles),
        enc.all_tiles(enc.after_head(old(io)@.since(h0)), tiles),
        sizes@ == tile_sizes(tiles),
        enc.encodable(),
    ensures
        reached(sink_call::<C>(), *old(io), *final(io)),
        final(io)@.follows(h0),
        encoder_run(*enc, enc.after_head(final(io)@.since(h0)), Ok(code), tiles),
        code == 0 || code == -7 || code == -8,
{
    let tidx_payload: Vec<u8> = index_payload(sizes);
    let ghost c0 = *io;
    let ghost first = taken(enc.head_parts());
    let ghost body = enc.head_parts() + tiles_parts(tiles);
    assert(body + Seq::<Seq<u8>>::empty() =~= body);
    if !put_chunk(io, CHUNK_TIDX, &tidx_payload, Ghost(first), Ghost(h0)) {
        return -7;
    }
    let ghost c1 = *io;
    let nothing: [u8; 0] = [];
    assert(nothing@ =~= Seq::<u8>::empty());
    let taken: bool = put_chunk(io, CHUNK_IEND, &nothing, Ghost(first), Ghost(h0));
    proof {
        lemma_reached(sink_call::<C>(), c0, c1, *io);
    }
    if !taken {
        return -8;
    }
    0
}

impl TngEncoder {
    /// Before the last band, a band starts where the bands before it end.
    pub proof fn lemma_read_len(self, ty: int)
        requires
            0 <= ty < self.config.num_tiles_y,
        ensures
            self.read_len(ty) == self.band_start(ty),
            self.read_len(ty + 1) == self.band_start(ty) + self.band_len(ty),
    {
        let size = self.config.tile_height * self.stride();
        if ty > 0 {
            assert((ty - 1) * size + size == ty * size) by (nonlinear_arith);
        } else {
            assert(0 * size == 0);
        }
    }

    /// A band ends before the bands that follow it.
    pub proof fn lemma_band_end(self, ty: int, bands: int)
        requires
            0 <= ty < bands <= self.config.num_tiles_y,
        ensures
            0 <= self.band_start(ty),
            0 <= self.band_len(ty),
            self.band_start(ty) + self.band_len(ty) <= self.read_len(bands),
    {
        let stride = self.stride();
        let size = self.config.tile_height * stride;
        assert(0 <= stride) by (nonlinear_arith)
            requires
                stride == self.info.width * self.bytes_per_pixel,
        ;
        assert(0 <= size && 0 <= self.band_len(ty) && 0 <= self.band_len(bands - 1))
            by (nonlinear_arith)
            requires
                0 <= stride,
                size == self.config.tile_height * stride,
                self.band_len(ty) == self.config.height_of(ty) * stride,
                self.band_len(bands - 1) == self.config.height_of(bands - 1) * stride,
                0 <= self.config.height_of(ty),
                0 <= self.config.height_of(bands - 1),
        ;
        assert(0 <= ty * size) by (nonlinear_arith)
            requires
                0 <= ty,
                0 <= size,
        ;
        if ty < bands - 1 {
            assert(ty * size + size <= (bands - 1) * size) by (nonlinear_arith)
                requires
                    ty + 1 <= bands - 1,
                    0 <= size,
            ;
        }
    }

    /// Whether `tiles` are what becomes of the first tiles.
    #[verifier::opaque]
    spec fn made(self, pixels: Seq<u8>, tiles: Seq<Seq<u8>>) -> bool {
        self.tiles_made(pixels, tiles)
    }

    /// Whether `payloads` are what becomes of the tiles of band `ty`.
    #[verifier::opaque]
    spec fn row_made(self, pixels: Seq<u8>, ty: int, payloads: Seq<Vec<u8>>) -> bool {
        forall|i: int|
            0 <= i < payloads.len() ==> self.tile_made(
                self.band(pixels, ty),
                ty,
                i,
                (#[trigger] payloads[i])@,
            )
    }

    /// One more tile of band `ty`.
    proof fn lemma_made_push(
        self,
        pixels: Seq<u8>,
        tiles: Seq<Seq<u8>>,
        payloads: Seq<Vec<u8>>,
        ty: int,
        tx: int,
    )
        requires
            self.made(pixels, tiles),
            self.row_made(pixels, ty, payloads),
            0 <= ty,
            0 <= tx < payloads.len() <= self.config.num_tiles_x,
            tiles.len() == ty * self.config.num_tiles_x + tx,
        ensures
            self.made(pixels, tiles.push(payloads[tx]@)),
    {
        reveal(TngEncoder::made);
        reveal(TngEncoder::row_made);
        let n = self.config.num_tiles_x as int;
        let more = tiles.push(payloads[tx]@);
        lemma_position(ty, tx, n, ty + 1);
        assert forall|k: int| 0 <= k < more.len() implies self.tile_made(
            self.band(pixels, k / n),
            k / n,
            k % n,
            #[trigger] more[k],
        ) by {
            if k < tiles.len() {
                assert(more[k] == tiles[k]);
            }
        }
    }

    /// Writing stopped in tile `tx` of band `ty`.
    proof fn lemma_stopped_in_tile(self, h: History, tiles: Seq<Seq<u8>>, ty: int, tx: int)
        requires
            0 <= ty < self.config.num_tiles_y,
            0 <= tx < self.config.num_tiles_x,
            h.short().len() == 0,
            self.bands_read(h, ty + 1),
            h.got().len() == self.band_start(ty) + self.band_len(ty),
            tiles.len() == ty * self.config.num_tiles_x + tx + 1,
            self.made(h.got(), tiles),
            stopped_in_chunk(
                self.head_parts() + tiles_parts(tiles.drop_last()),
                h,
                CHUNK_TDAT@,
                tiles.last(),
            ),
        ensures
            self.stopped_in_tile(h, tiles, ty),
    {
        reveal(TngEncoder::made);
        let n = self.config.num_tiles_x;
        assert(ty * n + n == (ty + 1) * n) by (nonlinear_arith);
    }

    /// Reading on does not change what was made of the bands before.
    proof fn lemma_tiles_made_extends(
        self,
        pixels: Seq<u8>,
        more: Seq<u8>,
        tiles: Seq<Seq<u8>>,
        bands: int,
    )
        requires
            0 <= bands <= self.config.num_tiles_y,
            tiles.len() <= bands * self.config.num_tiles_x,
            pixels.len() >= self.read_len(bands),
            self.tiles_made(pixels, tiles),
        ensures
            self.tiles_made(pixels + more, tiles),
    {
        let n = self.config.num_tiles_x as int;
        assert forall|k: int| 0 <= k < tiles.len() implies self.tile_made(
            self.band(pixels + more, k / n),
            k / n,
            k % n,
            #[trigger] tiles[k],
        ) by {
            assert(n > 0) by (nonlinear_arith)
                requires
                    0 < bands * n,
                    n >= 0,
            ;
            assert(0 <= k / n < bands) by (nonlinear_arith)
                requires
                    0 <= k < bands * n,
                    n > 0,
            ;
            self.lemma_band_end(k / n, bands);
            assert(self.band(pixels + more, k / n) =~= self.band(pixels, k / n));
        }
    }
}

/// The parts of one more tile come after those of the tiles before it.
proof fn lemma_tile_added(head: Seq<Seq<u8>>, tiles: Seq<Seq<u8>>, payload: Seq<u8>)
    ensures
        head + tiles_parts(tiles.push(payload)) == head + tiles_parts(tiles) + chunk_parts(
            CHUNK_TDAT@,
            payload,
        ),
        tiles.push(payload).drop_last() == tiles,
{
    let tile = chunk_parts(CHUNK_TDAT@, payload);
    assert(tiles.push(payload).drop_last() =~= tiles);
    assert(head + tiles_parts(tiles) + tile =~= head + (tiles_parts(tiles) + tile));
}

/// Writes the tiles of band `ty`, and adds the sizes of their payloads to `sizes`; tells
/// whether all were taken. `earlier` are the payloads that were written before, and the
/// payloads that have been written or refused are given back.
fn write_row<C: ByteSink>(
    enc: &TngEncoder,
    io: &mut Channel<C>,
    payloads: &Vec<Vec<u8>>,
    sizes: &mut Vec<u32>,
    ty: u32,
    Ghost(earlier): Ghost<Seq<Seq<u8>>>,
    Ghost(h0): Ghost<History>,
) -> (end: (bool, Ghost<Seq<Seq<u8>>>))
    requires
        ty < enc.config.num_tiles_y,
        payloads@.len() == enc.config.num_tiles_x,
        old(io)@.follows(h0),
        enc.rows_written(enc.after_head(old(io)@.since(h0)), earlier, ty as int),
        enc.bands_read(enc.after_head(old(io)@.since(h0)), ty + 1),
        enc.after_head(old(io)@.since(h0)).got().len() == enc.band_start(ty as int) + enc.band_len(
            ty as int,
        ),
        old(sizes)@ == tile_sizes(earlier),
        enc.row_made(enc.after_head(old(io)@.since(h0)).got(), ty as int, payloads@),
    ensures
        reached(sink_call::<C>(), *old(io), *final(io)),
        final(io)@.follows(h0),
        enc.after_head(final(io)@.since(h0)).reads() == enc.after_head(
            old(io)@.since(h0),
        ).reads(),
        end.0 ==> {
            &&& enc.rows_written(enc.after_head(final(io)@.since(h0)), end.1@, ty + 1)
            &&& final(sizes)@ == tile_sizes(end.1@)
        },
        earlier.is_prefix_of(end.1@),
        forall|i: int|
            #![trigger end.1@[i]]
            earlier.len() <= i < end.1@.len() ==> end.1@[i] == payloads@[i - earlier.len()]@,
        !end.0 ==> enc.stopped_in_tile(enc.after_head(final(io)@.since(h0)), end.1@, ty as int),
{
    let ghost n = enc.config.num_tiles_x as int;
    let ghost c0 = *io;
    let ghost head = enc.head_parts();
    let ghost first = taken(enc.head_parts());
    let ghost reads = enc.after_head(io@.since(h0)).reads();
    let ghost got = enc.after_head(io@.since(h0)).got();
    let ghost mut tiles = earlier;
    let mut tx: usize = 0;
    proof {
        lemma_reached_itself(sink_call::<C>(), c0);
        reveal(TngEncoder::made);
    }
    while tx < payloads.len()
        invariant
            ty < enc.config.num_tiles_y,
            n == enc.config.num_tiles_x,
            payloads@.len() == n,
            head == enc.head_parts(),
            first == taken(head),
            c0 == *old(io),
            reached(sink_call::<C>(), c0, *io),
            tx <= n,
            io@.follows(h0),
            enc.after_head(io@.since(h0)).clean(),
            enc.after_head(io@.since(h0)).writes() == head + tiles_parts(tiles),
            enc.after_head(io@.since(h0)).reads() == reads,
            enc.bands_read(enc.after_head(io@.since(h0)), ty + 1),
            reads == enc.after_head(old(io)@.since(h0)).reads(),
            enc.after_head(io@.since(h0)).got() == got,
            got == enc.after_head(old(io)@.since(h0)).got(),
            got.len() == enc.band_start(ty as int) + enc.band_len(ty as int),
            tiles.len() == ty * n + tx,
            sizes@ == tile_sizes(tiles),
            enc.made(got, tiles),
            enc.row_made(got, ty as int, payloads@),
            earlier.len() == ty * n,
            earlier.is_prefix_of(tiles),
            forall|i: int|
                #![trigger tiles[i]]
                earlier.len() <= i < tiles.len() ==> tiles[i] == payloads@[i - earlier.len()]@,
        decreases n - tx,
    {
        let tile_bytes: &Vec<u8> = &payloads[tx];
        let ghost c1 = *io;
        proof {
            enc.lemma_made_push(got, tiles, payloads@, ty as int, tx as int);
            lemma_tile_added(head, tiles, tile_bytes@);
            tiles = tiles.push(tile_bytes@);
        }
        sizes.push(low_u32(tile_bytes.len()));
        assert(sizes@ =~= tile_sizes(tiles));
        let taken: bool = put_chunk(io, CHUNK_TDAT, tile_bytes, Ghost(first), Ghost(h0));
        proof {
            lemma_reached(sink_call::<C>(), c0, c1, *io);
        }
        if !taken {
            proof {
                enc.lemma_stopped_in_tile(
                    enc.after_head(io@.since(h0)),
                    tiles,
                    ty as int,
                    tx as int,
                );
            }
            return (false, Ghost(tiles));
        }
        tx += 1;
    }
    proof {
        assert(ty * n + n == (ty + 1) * n) by (nonlinear_arith);
        reveal(TngEncoder::made);
    }
    (true, Ghost(tiles))
}

/// Reads band `ty`, and writes its tiles; tells how the run ends if it does. `earlier` are
/// the payloads that were written before, and the payloads that have been written or refused
/// are given back.
fn write_band<C: ByteSource + ByteSink>(
    enc: &TngEncoder,
    io: &mut Channel<C>,
    pool: &rayon::ThreadPool,
    columns: &Vec<u32>,
    sizes: &mut Vec<u32>,
    ty: u32,
    row_stride: usize,
    Ghost(earlier): Ghost<Seq<Seq<u8>>>,
    Ghost(h0): Ghost<History>,
) -> (end: (Option<Result<i32, TngFault>>, Ghost<Seq<Seq<u8>>>))
    requires
        ty < enc.config.num_tiles_y,
        row_stride == enc.stride(),
        columns@.len() == enc.config.num_tiles_x,
        forall|i: int| 0 <= i < columns@.len() ==> columns@[i] == i,
        old(io)@.follows(h0),
        enc.rows_written(enc.after_head(old(io)@.since(h0)), earlier, ty as int),
        enc.bands_read(enc.after_head(old(io)@.since(h0)), ty as int),
        enc.after_head(old(io)@.since(h0)).got().len() == enc.read_len(ty as int),
        old(sizes)@ == tile_sizes(earlier),
    ensures
        reached(port_call::<C>(), *old(io), *final(io)),
        final(io)@.follows(h0),
        end.0 is None ==> {
            &&& enc.band_fits(ty as int) && enc.tiles_fit(ty as int)
            &&& enc.rows_written(enc.after_head(final(io)@.since(h0)), end.1@, ty + 1)
            &&& enc.bands_read(enc.after_head(final(io)@.since(h0)), ty + 1)
            &&& enc.after_head(final(io)@.since(h0)).got().len() == enc.read_len(ty + 1)
            &&& final(sizes)@ == tile_sizes(end.1@)
        },
        end.0 matches Some(code) ==> {
            let h = enc.after_head(final(io)@.since(h0));
            match code {
                Ok(code) => {
                    ||| code == -5 && enc.stopped_at_band(h, end.1@, ty as int)
                    ||| code == -6 && enc.stopped_in_tile(h, end.1@, ty as int)
                },
                Err(fault) => {
                    &&& fault == TngFault::Malformed
                    &&& h.clean()
                    &&& h.writes() == enc.head_parts() + tiles_parts(end.1@)
                    &&& enc.tiles_made(h.got(), end.1@)
                    &&& enc.faulted_at_band(h, end.1@, ty as int)
                },
            }
        },
{
    let ghost c0 = *io;
    let ghost first = taken(enc.head_parts());
    let ghost before = enc.after_head(io@.since(h0));
    proof {
        enc.lemma_read_len(ty as int);
        lemma_reached_itself(port_call::<C>(), c0);
        lemma_since_itself(c0@);
        lemma_blank();
        lemma_since(c0@, c0@);
    }
    let chunk_buffer_len: usize = match enc.band_bytes(ty, row_stride) {
        Some(len) => len,
        None => {
            return (Some(Err(TngFault::Malformed)), Ghost(earlier));
        },
    };
    let pixels: Option<Vec<u8>> = io.receive(chunk_buffer_len);
    let ghost c1 = *io;
    let ghost after = enc.after_head(io@.since(h0));
    proof {
        lemma_source_reached(c0, *io);
        lemma_since_adds(first, h0, c0@, io@);
        assert(after.writes() =~= before.writes());
        assert(after.refused() =~= before.refused());
    }
    let tile_row_pixels: Vec<u8> = match pixels {
        Some(pixels) => pixels,
        None => {
            proof {
                assert(io@.since(c0@).fails_last());
                assert(after.short() =~= seq![enc.band_len(ty as int) as nat]);
                assert(after.reads() =~= before.reads());
            }
            return (Some(Ok(-5)), Ghost(earlier));
        },
    };
    proof {
        assert(after.short() =~= before.short());
        assert(after.reads() =~= before.reads().push(tile_row_pixels@));
        assert(after.got() =~= before.got() + tile_row_pixels@);
        assert(enc.bands_read(after, ty + 1));
        enc.lemma_tiles_made_extends(before.got(), tile_row_pixels@, earlier, ty as int);
        assert(enc.band(after.got(), ty as int) =~= tile_row_pixels@);
    }
    if !enc.is_tiling(ty, row_stride) {
        return (Some(Err(TngFault::Malformed)), Ghost(earlier));
    }
    let compressed_row_tiles: Vec<Vec<u8>> = encode_tiles(
        pool,
        enc,
        &tile_row_pixels,
        ty,
        columns,
    );
    assert(enc.row_made(after.got(), ty as int, compressed_row_tiles@)) by {
        reveal(TngEncoder::row_made);
    }
    let (taken, tiles) = write_row(
        enc,
        io,
        &compressed_row_tiles,
        sizes,
        ty,
        Ghost(earlier),
        Ghost(h0),
    );
    proof {
        lemma_sink_reached(c1, *io);
        lemma_reached(port_call::<C>(), c0, c1, *io);
    }
    if !taken {
        return (Some(Ok(-6)), tiles);
    }
    (None, tiles)
}

impl TngEncoder {
    /// What the calls amount to that write what comes before the tiles.
    proof fn lemma_head_only(self)
        ensures
            self.after_head(History::blank()) == taken(self.head_parts()),
            wrote(taken(self.head_parts()), self.head_parts()),
            taken(self.head_parts()).got().len() == 0,
    {
        lemma_taken(self.head_parts());
        assert(self.after_head(History::blank()).calls =~= taken(self.head_parts()).calls);
    }
}

/// Reads the bands one after the other, and writes their tiles. The sizes of the
/// payloads are collected in `sizes`.
fn write_bands<C: ByteSource + ByteSink>(
    enc: &TngEncoder,
    io: &mut Channel<C>,
    pool: &rayon::ThreadPool,
    sizes: &mut Vec<u32>,
    Ghost(h0): Ghost<History>,
) -> (end: (Result<i32, TngFault>, Ghost<Seq<Seq<u8>>>))
    requires
        old(io)@.follows(h0),
        old(io)@.since(h0) == History::blank(),
        old(sizes)@.len() == 0,
    ensures
        reached(port_call::<C>(), *old(io), *final(io)),
        final(io)@.follows(h0),
        ({
            let (code, tiles) = end;
            let h = enc.after_head(final(io)@.since(h0));
            &&& code != Err::<i32, TngFault>(TngFault::NoThreads)
            &&& code matches Ok(code) ==> code == 0 || code == -5 || code == -6
            &&& code != Ok::<i32, TngFault>(0) ==> encoder_run(*enc, h, code, tiles@)
            &&& code == Ok::<i32, TngFault>(0) ==> {
                &&& enc.encodable()
                &&& h.clean()
                &&& h.writes() == enc.head_parts() + tiles_parts(tiles@)
                &&& enc.all_tiles(h, tiles@)
                &&& final(sizes)@ == tile_sizes(tiles@)
            }
        }),
{
    let ghost n = enc.config.num_tiles_x as int;
    let ghost none: Seq<Seq<u8>> = Seq::empty();
    let ghost c0 = *io;
    proof {
        lemma_reached_itself(port_call::<C>(), c0);
        enc.lemma_head_only();
        assert(enc.head_parts() + tiles_parts(none) =~= enc.head_parts());
        assert(sizes@ =~= tile_sizes(none));
        assert(0 * n == 0);
    }
    let row_stride: usize = match (enc.info.width as usize).checked_mul(enc.bytes_per_pixel) {
        Some(stride) => stride,
        None => {
            return (Err(TngFault::Malformed), Ghost(none));
        },
    };
    let columns: Vec<u32> = columns_up_to(enc.config.num_tiles_x);
    let ghost mut tiles = none;
    let mut ty: u32 = 0;
    while ty < enc.config.num_tiles_y
        invariant
            row_stride == enc.stride(),
            forall|i: int| 0 <= i < ty ==> #[trigger] enc.band_fits(i) && enc.tiles_fit(i),
            columns@.len() == enc.config.num_tiles_x,
            forall|i: int| 0 <= i < columns@.len() ==> columns@[i] == i,
            ty <= enc.config.num_tiles_y,
            c0 == *old(io),
            reached(port_call::<C>(), c0, *io),
            io@.follows(h0),
            enc.rows_written(enc.after_head(io@.since(h0)), tiles, ty as int),
            enc.bands_read(enc.after_head(io@.since(h0)), ty as int),
            enc.after_head(io@.since(h0)).got().len() == enc.read_len(ty as int),
            sizes@ == tile_sizes(tiles),
        decreases enc.config.num_tiles_y - ty,
    {
        let ghost c1 = *io;
        let (end, Ghost(written)) = write_band(
            enc,
            io,
            pool,
            &columns,
            sizes,
            ty,
            row_stride,
            Ghost(tiles),
            Ghost(h0),
        );
        proof {
            lemma_reached(port_call::<C>(), c0, c1, *io);
            tiles = written;
        }
        match end {
            Some(code) => {
                return (code, Ghost(tiles));
            },
            None => {},
        }
        ty += 1;
    }
    (Ok(0), Ghost(tiles))
}

/// Reads the bands, and writes their tiles and what comes after them, on the threads that
/// `pool` holds. Without threads it is an error, and nothing passes.
///
/// What comes before the tiles must have been written, which is not looked at: the contract
/// says what follows it.
pub fn encode_bands<C: ByteSource + ByteSink>(
    enc: &TngEncoder,
    io: &mut Channel<C>,
    pool: Result<rayon::ThreadPool, rayon::ThreadPoolBuildError>,
) -> (end: Result<i32, TngFault>)
    ensures
        pool is Err ==> (end matches Err(fault) && fault == TngFault::NoThreads) && *final(io)
            == *old(io),
        reached(port_call::<C>(), *old(io), *final(io)),
        pool is Ok ==> {
            &&& exists|tiles: Seq<Seq<u8>>| #[trigger]
                encoder_run(*enc, enc.after_head(final(io)@.since(old(io)@)), end, tiles)
            &&& end != Err::<i32, TngFault>(TngFault::NoThreads)
            &&& end matches Ok(code) ==> code == 0 || -8 <= code <= -5
        },
{
    let ghost c0 = *io;
    proof {
        lemma_reached_itself(port_call::<C>(), c0);
    }
    let pool: rayon::ThreadPool = match pool {
        Ok(pool) => pool,
        Err(_) => {
            return Err(TngFault::NoThreads);
        },
    };
    let ghost h0 = io@;
    proof {
        lemma_since_itself(h0);
    }
    let mut tracking_index: Vec<u32> = Vec::new();
    let (code, Ghost(tiles)) = write_bands(enc, io, &pool, &mut tracking_index, Ghost(h0));
    match code {
        Ok(0) => {},
        _ => {
            return code;
        },
    }
    let ghost c1 = *io;
    let code: i32 = write_tail(enc, io, &tracking_index, Ghost(tiles), Ghost(h0));
    proof {
        lemma_sink_reached(c1, *io);
        lemma_reached(port_call::<C>(), c0, c1, *io);
    }
    Ok(code)
}

/// The number of threads that a run asks for.
pub fn pool_threads(config: &TngTileConfig) -> (threads: usize)
    ensures
        threads == config.threads,
{
    config.threads as usize
}

/// Reads the pixels of an image, band by band, and writes it as a TNG stream.
///
/// The result is the status code of the run: 0 if everything was read and written, -1
/// without an encoder, -2 if the signature was refused, -3 and -4 if writing stopped in
/// the image header and in the tile grid header, -5 if a band could not be read, -6, -7
/// and -8 if writing stopped in a tile, in the tile index and in the end chunk. It is an
/// error if the threads could not be started, which happens after the headers, or if a band
/// or its tiles do not fit, which shows when it is their turn.
pub fn tng_encoder_process<C: ByteSource + ByteSink>(
    encoder: Option<&TngEncoder>,
    io: &mut Channel<C>,
) -> (end: Result<i32, TngFault>)
    ensures
        encoder is None ==> (end matches Ok(code) && code == -1) && *final(io) == *old(io),
        reached(port_call::<C>(), *old(io), *final(io)),
        encoder matches Some(enc) ==> exists|tiles: Seq<Seq<u8>>|
            #[trigger] encoder_run(*enc, final(io)@.since(old(io)@), end, tiles),
{
    let ghost c0 = *io;
    let ghost h0 = io@;
    proof {
        lemma_reached_itself(port_call::<C>(), c0);
    }
    let enc: &TngEncoder = match encoder {
        Some(enc) => enc,
        None => {
            return Ok(-1);
        },
    };
    let head_code: i32 = write_head(enc, io);
    proof {
        lemma_sink_reached(c0, *io);
    }
    if head_code != 0 {
        return Ok(head_code);
    }
    let ghost c1 = *io;
    let ghost h1 = io@;
    let threads: usize = pool_threads(&enc.config);
    let end: Result<i32, TngFault> = encode_bands(enc, io, build_pool(threads));
    proof {
        lemma_reached(port_call::<C>(), c0, c1, *io);
        enc.lemma_head_only();
        if end == Err::<i32, TngFault>(TngFault::NoThreads) {
            assert(encoder_run(*enc, io@.since(h0), end, Seq::empty()));
        } else {
            lemma_since_joins(h0, h1, io@);
        }
    }
    end
}

} // verus!
