# Rati

Rati (Range-Accessed Tar Index) serves individual [Valhalla](https://github.com/valhalla/valhalla)
tiles out of tar archives on S3, by byte-range requests. The logic is a Verus library with proved
contracts; a small program around it talks to S3 and to HTTP clients.

## Layout

- `src/`: the library.
  - `text`, `date`, `range`: text, HTTP dates and byte ranges.
  - `tile`: tile ids, tile paths and the compression of tiles.
  - `tar`, `index`, `scan`: tar headers, `index.bin`, and building an index by scanning headers.
  - `archive`, `open`: archives, and the conversation that opens one.
  - `codec`: gzip and zstd.
  - `etag`: entity tags and lists of them.
  - `http`, `server`: what requests are answered, and what the server reports of itself.
  - `error`: errors and their messages.
- `tests/`: tests of the library.
- `app/`: the server.

Functions named `law_..` state what holds of several functions together: that a tile path names
the packed id of its tile, that an index reads back as it was written, that scanning an archive
finds exactly its tiles however it is cut into chunks, that the tile listed first tells the
compression, that an opened archive holds tiles, that entity tags are compared weakly, that
`HEAD` answers as `GET` does.

What is not proved is stated where it is used: the functions that call `flate2`, `zstd`,
`rustc-hash` and `aws-sdk-s3` carry contracts that are taken from these crates.

## Usage

```
rati <archive> [OPTIONS]
```

`<archive>` is the S3 location of the tar archive: `s3://bucket/path/to/tiles.tar`

| Flag | Default | Description |
|------|---------|-------------|
| `--scan-index` | off | Build index by scanning tar headers if `index.bin` is missing |
| `--dataset-id <ID>` | auto | Override the dataset ID |
| `--cache-max-age <SECONDS>` | `86400` | `Cache-Control` max-age in seconds |
| `--port <PORT>` | `3000` | Port to listen on |
| `--concurrency <N>` | `4` | Max worker threads |

## Endpoints

```
GET /                              Status: dataset_id, tile_count, s3_source, s3_etag
GET /tiles/{tilePath}              Tile by path, such as 2/000/818/660.gph
GET /tiles_by_id/{tile_id}         Tile by numeric packed id
GET /health                        Health check
```
