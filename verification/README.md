# nix-gnome-extension

GNOME Shell extensions packaged for Nix, powered by live data from
extensions.gnome.org. The exporter enumerates the site's extension listing
into a SQLite database, downloads and hashes every asset, and writes sharded
JSON files that the Nix library reads.

## Layout

- `src/` is the verified library (Verus):
  - `nix_hash`: Nix base32 encoding and SHA-256 hashing, with the laws that
    the encoding is the little-endian value written in base 32, that it is
    injective for inputs of one length, and that it sorts like that value;
  - `export`: FNV-1a sharding, grouping of hashed assets by extension with
    versions newest first, and the exact text of each shard file, with the
    law that shard files are byte-stable;
  - `api`: response models, request URLs, the retry schedule of GETs and
    which outcome of a try ends it;
  - `fetch`: pagination decisions, when a page ends the enumeration, and
    what each listed version adds to the database;
  - `hash`: selection of the assets to hash and the digest of a download;
  - `state`: the JSON state model and its count of missing hashes;
  - `models`, `order`, `json`, `text`: database rows, the byte order of
    strings, JSON text pieces and string building.
- `app/` is the program around it: command line, HTTP client, database
  access, concurrency and file output.
- `tests/` exercises the library on concrete values.
